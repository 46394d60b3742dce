//! Resource records: a name, a type, a class, a time to live, and a payload
//! that is kept both as received and as what it stands for.

use vstd::prelude::*;
use crate::cursor::{
    bytes_at,
    holds_start_of,
    lemma_holds_all,
    lemma_holds_parts,
    lemma_u16_round_trip,
    lemma_u32_round_trip,
    u16_bytes,
    u32_bytes,
    Cursor,
};
use crate::dns_components::dns_answer::{
    answer_at,
    push_record,
    record_bytes,
    AnswerDataView,
    AnswerView,
    DnsAnswer,
    DnsAnswerData,
    FIXED_FIELDS_LEN,
};
use crate::dns_components::dns_name::{
    encodable,
    lemma_decoded_name_is_valid,
    lemma_name_cut,
    lemma_name_inline,
    name_bytes,
    valid_name,
    DnsName,
    MAX_POINTER_HOPS,
};
use crate::dns_components::dns_question::{TYPE_ADDRESS, TYPE_ALIAS};
use crate::dns_components::dns_rdata::{DnsRdata, Ipv4Addr, RdataView};
use crate::error::DnsError;

verus! {

/// A resource record.
///
/// `rdata_raw` holds the payload bytes as they were received, and encoding
/// writes them back unchanged; `rdata` is what they stand for.
#[derive(PartialEq, Eq, Debug, Clone, Hash)]
pub struct DnsResourceRecord {
    pub name: DnsName,
    pub rtype: u16,
    pub class: u16,
    pub ttl: u32,
    pub rdlength: u16,
    pub rdata: DnsRdata,
    pub rdata_raw: Vec<u8>,
}

/// A resource record as a mathematical value.
pub struct RecordView {
    pub name: Seq<Seq<u8>>,
    pub rtype: u16,
    pub class: u16,
    pub ttl: u32,
    pub rdlength: u16,
    pub rdata: RdataView,
    pub rdata_raw: Seq<u8>,
}

impl View for DnsResourceRecord {
    type V = RecordView;

    open spec fn view(&self) -> RecordView {
        RecordView {
            name: self.name@,
            rtype: self.rtype,
            class: self.class,
            ttl: self.ttl,
            rdlength: self.rdlength,
            rdata: self.rdata@,
            rdata_raw: self.rdata_raw@,
        }
    }
}

/// The length of an address payload.
pub const ADDRESS_LEN: usize = 4;

/// The record that a record read from the wire stands for: an address
/// payload must have exactly four bytes, declared and held, else the record
/// is an `InvalidField`.
pub open spec fn interpret(a: AnswerView) -> Result<RecordView, DnsError> {
    match a.rdata {
        AnswerDataView::IpAddr(raw) => if a.rdlength != ADDRESS_LEN || raw.len() != ADDRESS_LEN {
            Err(DnsError::InvalidField)
        } else {
            Ok(
                RecordView {
                    name: a.name,
                    rtype: a.rtype,
                    class: a.class,
                    ttl: a.ttl,
                    rdlength: a.rdlength,
                    rdata: RdataView::Address(raw),
                    rdata_raw: a.rdata_raw,
                },
            )
        },
        AnswerDataView::DnsName(alias) => Ok(
            RecordView {
                name: a.name,
                rtype: a.rtype,
                class: a.class,
                ttl: a.ttl,
                rdlength: a.rdlength,
                rdata: RdataView::Alias(alias),
                rdata_raw: a.rdata_raw,
            },
        ),
    }
}

/// What decoding a resource record at `pos` yields: the record as it stands
/// on the wire, then held to the rule for address payloads.
pub open spec fn record_at(data: Seq<u8>, pos: int) -> Result<(RecordView, int), DnsError> {
    match answer_at(data, pos) {
        Err(e) => Err(e),
        Ok((a, end)) => match interpret(a) {
            Err(e) => Err(e),
            Ok(r) => Ok((r, end)),
        },
    }
}

/// The wire form of a resource record.
pub open spec fn rr_bytes(r: RecordView) -> Seq<u8> {
    record_bytes(r.name, r.rtype, r.class, r.ttl, r.rdlength, r.rdata_raw)
}

/// Whether `prefix` stands at the start of `s`.
pub open spec fn starts_with(s: Seq<u8>, prefix: Seq<u8>) -> bool {
    prefix.len() <= s.len() && s.subrange(0, prefix.len() as int) == prefix
}

/// Whether a record survives a round trip through the wire: its names are
/// valid, its declared length is that of its payload bytes, and the payload
/// bytes spell out what the record says they stand for, an alias in
/// uncompressed form.
pub open spec fn valid_record(r: RecordView) -> bool {
    &&& valid_name(r.name)
    &&& r.rdlength == r.rdata_raw.len()
    &&& match r.rdata {
        RdataView::Address(addr) => r.rtype == TYPE_ADDRESS && r.rdlength == ADDRESS_LEN && addr
            == r.rdata_raw,
        RdataView::Alias(alias) => r.rtype == TYPE_ALIAS && valid_name(alias) && starts_with(
            r.rdata_raw,
            name_bytes(alias),
        ),
    }
}

impl DnsResourceRecord {
    /// The resource record that a record read from the wire stands for.
    ///
    /// Fails with `InvalidField` exactly when the record holds an address
    /// payload that has not four bytes, declared and held.
    pub fn from_answer(answer: DnsAnswer) -> (r: Result<Self, DnsError>)
        ensures
            match r {
                Ok(record) => interpret(answer@) == Ok::<RecordView, DnsError>(record@),
                Err(e) => interpret(answer@) == Err::<RecordView, DnsError>(e),
            },
    {
        let DnsAnswer { name, rtype, class, ttl, rdlength, rdata, rdata_raw } = answer;
        let rdata = match rdata {
            DnsAnswerData::IpAddr(raw) => {
                if rdlength != 4 || raw.len() != ADDRESS_LEN {
                    return Err(DnsError::InvalidField);
                }
                let addr = Ipv4Addr::new(raw[0], raw[1], raw[2], raw[3]);
                assert(addr@ == raw@);
                DnsRdata::ARecord(addr)
            },
            DnsAnswerData::DnsName(alias) => DnsRdata::CnameRecord(alias),
        };
        Ok(Self { name, rtype, class, ttl, rdlength, rdata, rdata_raw })
    }

    /// Decodes the resource record at the cursor and moves the cursor past
    /// its payload. The name of a record that decodes is valid, and so is
    /// the name of an alias payload. On failure the cursor stays where it
    /// was.
    pub fn parse(cursor: &mut Cursor) -> (r: Result<Self, DnsError>)
        ensures
            final(cursor).data@ == old(cursor).data@,
            match r {
                Ok(record) => {
                    &&& record_at(old(cursor).data@, old(cursor).pos as int) == Ok::<
                        (RecordView, int),
                        DnsError,
                    >((record@, final(cursor).pos as int))
                    &&& valid_name(record@.name)
                    &&& record@.rdata matches RdataView::Alias(alias) ==> valid_name(alias)
                },
                Err(e) => {
                    &&& record_at(old(cursor).data@, old(cursor).pos as int) == Err::<
                        (RecordView, int),
                        DnsError,
                    >(e)
                    &&& final(cursor).pos == old(cursor).pos
                },
            },
    {
        let origin = cursor.pos;
        let answer = match DnsAnswer::parse(cursor) {
            Ok(answer) => answer,
            Err(e) => {
                return Err(e);
            },
        };
        match Self::from_answer(answer) {
            Ok(record) => Ok(record),
            Err(e) => {
                cursor.pos = origin;
                Err(e)
            },
        }
    }

    /// The wire form of the record, with the payload bytes as they were
    /// received.
    ///
    /// Fails with `LabelTooLong` exactly when a label of the record's name
    /// has more than 63 bytes.
    pub fn to_bytes(&self) -> (r: Result<Vec<u8>, DnsError>)
        ensures
            match r {
                Ok(bytes) => encodable(self@.name) && bytes@ == rr_bytes(self@),
                Err(e) => !encodable(self@.name) && e == DnsError::LabelTooLong,
            },
    {
        let mut msg: Vec<u8> = Vec::new();
        match push_record(
            &mut msg,
            &self.name,
            self.rtype,
            self.class,
            self.ttl,
            self.rdlength,
            &self.rdata_raw,
        ) {
            Ok(_) => Ok(msg),
            Err(e) => Err(e),
        }
    }
}

/// An address record whose declared payload length is not 4 fails to decode
/// with `InvalidField`, once its name, its fixed fields and its payload
/// bytes have been read.
pub proof fn lemma_address_length_mismatch(data: Seq<u8>, pos: int)
    requires
        answer_at(data, pos) is Ok,
        answer_at(data, pos)->Ok_0.0.rtype == TYPE_ADDRESS,
        answer_at(data, pos)->Ok_0.0.rdlength != ADDRESS_LEN,
    ensures
        record_at(data, pos) == Err::<(RecordView, int), DnsError>(DnsError::InvalidField),
{
}

/// Every record that decodes has a valid name, holds as many payload bytes
/// as it declares, ends right after them, and has a payload of the kind that
/// its type announces: the four payload bytes of an address, or an alias
/// with a valid name.
pub proof fn lemma_decoded_record_is_consistent(data: Seq<u8>, pos: int)
    requires
        record_at(data, pos) is Ok,
    ensures
        ({
            let (r, end) = record_at(data, pos)->Ok_0;
            &&& valid_name(r.name)
            &&& r.rdata_raw.len() == r.rdlength
            &&& pos + 1 + FIXED_FIELDS_LEN + r.rdlength <= end <= data.len()
            &&& r.rdata_raw == bytes_at(data, end - r.rdlength, r.rdlength as nat)
            &&& match r.rdata {
                RdataView::Address(addr) => r.rtype == TYPE_ADDRESS && r.rdlength == ADDRESS_LEN
                    && addr == r.rdata_raw,
                RdataView::Alias(alias) => r.rtype == TYPE_ALIAS && valid_name(alias),
            }
        }),
{
    lemma_decoded_name_is_valid(data, pos, MAX_POINTER_HOPS as nat);
    let (r, end) = record_at(data, pos)->Ok_0;
    if r.rtype == TYPE_ALIAS {
        lemma_decoded_name_is_valid(data, end - r.rdlength, MAX_POINTER_HOPS as nat);
    }
}

/// A valid record, standing in a buffer in its wire form, decodes to itself,
/// and the decode ends right after its bytes.
pub proof fn lemma_record_inline(data: Seq<u8>, pos: int, r: RecordView)
    requires
        valid_record(r),
        0 <= pos,
        pos + rr_bytes(r).len() <= data.len(),
        data.subrange(pos, pos + rr_bytes(r).len()) == rr_bytes(r),
    ensures
        record_at(data, pos) == Ok::<(RecordView, int), DnsError>((r, pos + rr_bytes(r).len())),
{
    let wire = rr_bytes(r);
    let name = name_bytes(r.name);
    let n = name.len() as int;
    let window = data.subrange(pos, pos + wire.len());
    assert(wire.len() == n + FIXED_FIELDS_LEN + r.rdata_raw.len());
    assert forall|i: int| 0 <= i < wire.len() implies data[pos + i] == wire[i] by {
        assert(data[pos + i] == window[i]);
    }
    assert(data.subrange(pos, pos + n) == name);
    lemma_name_inline(data, pos, r.name, MAX_POINTER_HOPS as nat);
    let after = pos + n;
    assert(data.subrange(after, after + 2) == u16_bytes(r.rtype)) by {
        assert forall|i: int| 0 <= i < 2 implies data[after + i] == u16_bytes(r.rtype)[i] by {
            assert(data[after + i] == wire[n + i]);
        }
    }
    assert(data.subrange(after + 2, after + 4) == u16_bytes(r.class)) by {
        assert forall|i: int| 0 <= i < 2 implies data[after + 2 + i] == u16_bytes(r.class)[i] by {
            assert(data[after + 2 + i] == wire[n + 2 + i]);
        }
    }
    assert(data.subrange(after + 4, after + 8) == u32_bytes(r.ttl)) by {
        assert forall|i: int| 0 <= i < 4 implies data[after + 4 + i] == u32_bytes(r.ttl)[i] by {
            assert(data[after + 4 + i] == wire[n + 4 + i]);
        }
    }
    assert(data.subrange(after + 8, after + 10) == u16_bytes(r.rdlength)) by {
        assert forall|i: int| 0 <= i < 2 implies data[after + 8 + i] == u16_bytes(r.rdlength)[i] by {
            assert(data[after + 8 + i] == wire[n + 8 + i]);
        }
    }
    lemma_u16_round_trip(data, after, r.rtype);
    lemma_u16_round_trip(data, after + 2, r.class);
    lemma_u32_round_trip(data, after + 4, r.ttl);
    lemma_u16_round_trip(data, after + 8, r.rdlength);
    let start = after + FIXED_FIELDS_LEN;
    assert(bytes_at(data, start, r.rdlength as nat) == r.rdata_raw) by {
        assert forall|i: int| 0 <= i < r.rdata_raw.len() implies data[start + i]
            == r.rdata_raw[i] by {
            assert(data[start + i] == wire[n + 10 + i]);
        }
    }
    match r.rdata {
        RdataView::Address(addr) => {},
        RdataView::Alias(alias) => {
            let inner = name_bytes(alias);
            assert(data.subrange(start, start + inner.len()) == inner) by {
                assert forall|i: int| 0 <= i < inner.len() implies data[start + i] == inner[i] by {
                    assert(data[start + i] == r.rdata_raw[i]);
                    assert(r.rdata_raw.subrange(0, inner.len() as int)[i] == r.rdata_raw[i]);
                }
            }
            lemma_name_inline(data, start, alias, MAX_POINTER_HOPS as nat);
        },
    }
}

/// Decoding the wire form of a valid record gives the record back and
/// consumes all of it.
pub proof fn lemma_record_round_trip(r: RecordView)
    requires
        valid_record(r),
    ensures
        record_at(rr_bytes(r), 0) == Ok::<(RecordView, int), DnsError>(
            (r, rr_bytes(r).len() as int),
        ),
{
    let wire = rr_bytes(r);
    assert(wire.subrange(0, wire.len() as int) == wire);
    lemma_record_inline(wire, 0, r);
}

/// A buffer that ends inside the wire form of a valid record, or before it,
/// fails to decode at the record with `Truncated`.
pub proof fn lemma_record_cut(data: Seq<u8>, pos: int, r: RecordView)
    requires
        valid_record(r),
        0 <= pos,
        holds_start_of(data, pos, rr_bytes(r)),
        data.len() < pos + rr_bytes(r).len(),
    ensures
        record_at(data, pos) == Err::<(RecordView, int), DnsError>(DnsError::Truncated),
{
    let name = name_bytes(r.name);
    let fixed = u16_bytes(r.rtype) + u16_bytes(r.class) + u32_bytes(r.ttl) + u16_bytes(r.rdlength);
    assert(rr_bytes(r) == name + fixed + r.rdata_raw);
    lemma_holds_parts(data, pos, name + fixed, r.rdata_raw);
    lemma_holds_parts(data, pos, name, fixed);
    if data.len() < pos + name.len() {
        lemma_name_cut(data, pos, r.name, MAX_POINTER_HOPS as nat);
    } else {
        lemma_holds_all(data, pos, name);
        lemma_name_inline(data, pos, r.name, MAX_POINTER_HOPS as nat);
        let after = pos + name.len();
        if after + FIXED_FIELDS_LEN <= data.len() {
            lemma_holds_all(data, after, fixed);
            assert(data.subrange(after + 8, after + 10) == u16_bytes(r.rdlength)) by {
                assert forall|i: int| 0 <= i < 2 implies data[after + 8 + i] == u16_bytes(
                    r.rdlength,
                )[i] by {
                    assert(data[after + 8 + i] == data.subrange(after, after + 10)[8 + i]);
                    assert(fixed[8 + i] == u16_bytes(r.rdlength)[i]);
                }
            }
            lemma_u16_round_trip(data, after + 8, r.rdlength);
        }
    }
}

} // verus!
