//! Entries of the question section: a name with a type and a class.

use vstd::prelude::*;
use vstd::string::StringSliceAdditionalSpecFns;
use crate::cursor::{
    holds_start_of,
    lemma_holds_all,
    lemma_holds_parts,
    lemma_u16_round_trip,
    push_all,
    push_u16,
    u16_at,
    u16_bytes,
    Cursor,
};
use crate::dns_components::dns_name::{
    encodable,
    lemma_decoded_name_is_valid,
    lemma_name_cut,
    lemma_name_inline,
    name_at,
    name_bytes,
    split_dots,
    valid_name,
    DnsName,
    MAX_POINTER_HOPS,
};
use crate::error::DnsError;

verus! {

/// The type code of an address record.
pub const TYPE_ADDRESS: u16 = 1;

/// The type code of an alias record.
pub const TYPE_ALIAS: u16 = 5;

/// The class code of the internet.
pub const CLASS_INTERNET: u16 = 1;

/// One entry of the question section.
#[derive(PartialEq, Eq, Debug, Clone, Hash)]
pub struct DnsQuestion {
    pub qname: DnsName,
    pub qtype: u16,
    pub qclass: u16,
}

/// A question as a mathematical value.
pub struct QuestionView {
    pub qname: Seq<Seq<u8>>,
    pub qtype: u16,
    pub qclass: u16,
}

impl View for DnsQuestion {
    type V = QuestionView;

    open spec fn view(&self) -> QuestionView {
        QuestionView { qname: self.qname@, qtype: self.qtype, qclass: self.qclass }
    }
}

/// What decoding a question at `pos` yields: the name, then two 16-bit
/// codes.
pub open spec fn question_at(data: Seq<u8>, pos: int) -> Result<(QuestionView, int), DnsError> {
    match name_at(data, pos, MAX_POINTER_HOPS as nat) {
        Err(e) => Err(e),
        Ok((qname, after)) => if after + 4 > data.len() {
            Err(DnsError::Truncated)
        } else {
            Ok(
                (
                    QuestionView {
                        qname,
                        qtype: u16_at(data, after),
                        qclass: u16_at(data, after + 2),
                    },
                    after + 4,
                ),
            )
        },
    }
}

/// The wire form of a question.
pub open spec fn question_bytes(q: QuestionView) -> Seq<u8> {
    name_bytes(q.qname) + u16_bytes(q.qtype) + u16_bytes(q.qclass)
}

/// The question for the internet address of the dotted hostname `url`.
pub open spec fn address_question(url: Seq<u8>) -> QuestionView {
    QuestionView { qname: split_dots(url), qtype: TYPE_ADDRESS, qclass: CLASS_INTERNET }
}

impl DnsQuestion {
    /// The wire form of the question.
    ///
    /// Fails with `LabelTooLong` exactly when a label of the name has more
    /// than 63 bytes.
    pub fn to_bytes(&self) -> (r: Result<Vec<u8>, DnsError>)
        ensures
            match r {
                Ok(bytes) => encodable(self@.qname) && bytes@ == question_bytes(self@),
                Err(e) => !encodable(self@.qname) && e == DnsError::LabelTooLong,
            },
    {
        let mut msg: Vec<u8> = Vec::new();
        match self.qname.to_bytes() {
            Ok(name) => push_all(&mut msg, name.as_slice()),
            Err(e) => {
                return Err(e);
            },
        }
        push_u16(&mut msg, self.qtype);
        push_u16(&mut msg, self.qclass);
        Ok(msg)
    }

    /// Decodes the question at the cursor and moves the cursor past it. The
    /// name of a question that decodes is valid. On failure the cursor stays
    /// where it was.
    pub fn parse(cursor: &mut Cursor) -> (r: Result<Self, DnsError>)
        ensures
            final(cursor).data@ == old(cursor).data@,
            match r {
                Ok(q) => {
                    &&& question_at(old(cursor).data@, old(cursor).pos as int) == Ok::<
                        (QuestionView, int),
                        DnsError,
                    >((q@, final(cursor).pos as int))
                    &&& valid_name(q@.qname)
                },
                Err(e) => {
                    &&& question_at(old(cursor).data@, old(cursor).pos as int) == Err::<
                        (QuestionView, int),
                        DnsError,
                    >(e)
                    &&& final(cursor).pos == old(cursor).pos
                },
            },
    {
        let start = cursor.pos;
        let qname = match DnsName::parse(cursor) {
            Ok(name) => name,
            Err(e) => {
                return Err(e);
            },
        };
        let qtype = match cursor.read_u16() {
            Ok(x) => x,
            Err(e) => {
                cursor.pos = start;
                return Err(e);
            },
        };
        let qclass = match cursor.read_u16() {
            Ok(x) => x,
            Err(e) => {
                cursor.pos = start;
                return Err(e);
            },
        };
        Ok(Self { qname, qtype, qclass })
    }

    /// The question for the address of a hostname in the internet class.
    pub fn query(url: &str) -> (q: Self)
        ensures
            q@ == address_question(url.spec_bytes()),
    {
        let qname = DnsName::from_string(url);
        Self { qname, qtype: TYPE_ADDRESS, qclass: CLASS_INTERNET }
    }
}

/// A question with a valid name, standing in a buffer in its wire form,
/// decodes to itself, and the decode ends right after its bytes.
pub proof fn lemma_question_inline(data: Seq<u8>, pos: int, q: QuestionView)
    requires
        valid_name(q.qname),
        0 <= pos,
        pos + question_bytes(q).len() <= data.len(),
        data.subrange(pos, pos + question_bytes(q).len()) == question_bytes(q),
    ensures
        question_at(data, pos) == Ok::<(QuestionView, int), DnsError>(
            (q, pos + question_bytes(q).len()),
        ),
{
    let wire = question_bytes(q);
    let name = name_bytes(q.qname);
    let n = name.len() as int;
    let window = data.subrange(pos, pos + wire.len());
    assert(data.subrange(pos, pos + n) == name) by {
        assert forall|i: int| 0 <= i < n implies data[pos + i] == name[i] by {
            assert(data[pos + i] == window[i]);
        }
    }
    lemma_name_inline(data, pos, q.qname, MAX_POINTER_HOPS as nat);
    assert(data.subrange(pos + n, pos + n + 2) == u16_bytes(q.qtype)) by {
        assert forall|i: int| 0 <= i < 2 implies data[pos + n + i] == u16_bytes(q.qtype)[i] by {
            assert(data[pos + n + i] == window[n + i]);
        }
    }
    assert(data.subrange(pos + n + 2, pos + n + 4) == u16_bytes(q.qclass)) by {
        assert forall|i: int| 0 <= i < 2 implies data[pos + n + 2 + i] == u16_bytes(q.qclass)[i] by {
            assert(data[pos + n + 2 + i] == window[n + 2 + i]);
        }
    }
    lemma_u16_round_trip(data, pos + n, q.qtype);
    lemma_u16_round_trip(data, pos + n + 2, q.qclass);
}

/// Decoding the wire form of a question with a valid name gives the question
/// back and consumes all of it.
pub proof fn lemma_question_round_trip(q: QuestionView)
    requires
        valid_name(q.qname),
    ensures
        question_at(question_bytes(q), 0) == Ok::<(QuestionView, int), DnsError>(
            (q, question_bytes(q).len() as int),
        ),
{
    let wire = question_bytes(q);
    assert(wire.subrange(0, wire.len() as int) == wire);
    lemma_question_inline(wire, 0, q);
}

/// A buffer that ends inside the wire form of a question with a valid name,
/// or before it, fails to decode at the question with `Truncated`.
pub proof fn lemma_question_cut(data: Seq<u8>, pos: int, q: QuestionView)
    requires
        valid_name(q.qname),
        0 <= pos,
        holds_start_of(data, pos, question_bytes(q)),
        data.len() < pos + question_bytes(q).len(),
    ensures
        question_at(data, pos) == Err::<(QuestionView, int), DnsError>(DnsError::Truncated),
{
    let name = name_bytes(q.qname);
    lemma_holds_parts(data, pos, name + u16_bytes(q.qtype), u16_bytes(q.qclass));
    lemma_holds_parts(data, pos, name, u16_bytes(q.qtype));
    if data.len() < pos + name.len() {
        lemma_name_cut(data, pos, q.qname, MAX_POINTER_HOPS as nat);
    } else {
        lemma_holds_all(data, pos, name);
        lemma_name_inline(data, pos, q.qname, MAX_POINTER_HOPS as nat);
    }
}

/// The name of every question that decodes is valid.
pub proof fn lemma_decoded_question_is_valid(data: Seq<u8>, pos: int)
    requires
        question_at(data, pos) is Ok,
    ensures
        valid_name(question_at(data, pos)->Ok_0.0.qname),
{
    lemma_decoded_name_is_valid(data, pos, MAX_POINTER_HOPS as nat);
}

} // verus!
