//! Whole messages: a header, then the questions, then the answer, authority
//! and additional records, as many of each as the header announces.

use vstd::prelude::*;
use vstd::string::StringSliceAdditionalSpecFns;
use crate::cursor::{
    holds_start_of,
    lemma_cut_holds,
    lemma_holds_all,
    lemma_holds_parts,
    push_all,
    Cursor,
};
use crate::dns_components::dns_answer::push_record;
use crate::dns_components::dns_header::{
    header_at,
    header_bytes,
    lemma_header_inline,
    query_header,
    valid_header,
    DnsHeader,
    HEADER_LEN,
};
use crate::dns_components::dns_name::{encodable, valid_name};
use crate::dns_components::dns_question::{
    address_question,
    lemma_decoded_question_is_valid,
    lemma_question_cut,
    lemma_question_inline,
    question_at,
    question_bytes,
    DnsQuestion,
    QuestionView,
};
use crate::dns_components::dns_rr::{
    lemma_decoded_record_is_consistent,
    lemma_record_cut,
    lemma_record_inline,
    record_at,
    rr_bytes,
    valid_record,
    DnsResourceRecord,
    RecordView,
};
use crate::error::DnsError;

verus! {

/// The id that `single_query` gives its header.
pub const QUERY_ID: u16 = 0xABBA;

/// A DNS message.
#[derive(PartialEq, Eq, Debug, Clone, Hash)]
pub struct DnsMessage {
    pub header: DnsHeader,
    pub questions: Vec<DnsQuestion>,
    pub answers: Vec<DnsResourceRecord>,
    pub authorities: Vec<DnsResourceRecord>,
    pub additionals: Vec<DnsResourceRecord>,
}

/// A message as a mathematical value.
pub struct MessageView {
    pub header: DnsHeader,
    pub questions: Seq<QuestionView>,
    pub answers: Seq<RecordView>,
    pub authorities: Seq<RecordView>,
    pub additionals: Seq<RecordView>,
}

/// The questions of a vector of questions, each as a mathematical value.
pub open spec fn questions_view(qs: Seq<DnsQuestion>) -> Seq<QuestionView> {
    qs.map_values(|q: DnsQuestion| q@)
}

/// The records of a vector of records, each as a mathematical value.
pub open spec fn records_view(rs: Seq<DnsResourceRecord>) -> Seq<RecordView> {
    rs.map_values(|r: DnsResourceRecord| r@)
}

impl View for DnsMessage {
    type V = MessageView;

    open spec fn view(&self) -> MessageView {
        MessageView {
            header: self.header,
            questions: questions_view(self.questions@),
            answers: records_view(self.answers@),
            authorities: records_view(self.authorities@),
            additionals: records_view(self.additionals@),
        }
    }
}

/// What decoding `count` questions in a row yields, the first at `pos`: the
/// questions and the position after the last, or the first failure.
pub open spec fn questions_at(data: Seq<u8>, pos: int, count: nat) -> Result<
    (Seq<QuestionView>, int),
    DnsError,
>
    decreases count,
{
    if count == 0 {
        Ok((Seq::empty(), pos))
    } else {
        match questions_at(data, pos, (count - 1) as nat) {
            Err(e) => Err(e),
            Ok((before, at)) => match question_at(data, at) {
                Err(e) => Err(e),
                Ok((q, end)) => Ok((before.push(q), end)),
            },
        }
    }
}

/// What decoding `count` resource records in a row yields, the first at
/// `pos`: the records and the position after the last, or the first failure.
pub open spec fn records_at(data: Seq<u8>, pos: int, count: nat) -> Result<
    (Seq<RecordView>, int),
    DnsError,
>
    decreases count,
{
    if count == 0 {
        Ok((Seq::empty(), pos))
    } else {
        match records_at(data, pos, (count - 1) as nat) {
            Err(e) => Err(e),
            Ok((before, at)) => match record_at(data, at) {
                Err(e) => Err(e),
                Ok((r, end)) => Ok((before.push(r), end)),
            },
        }
    }
}

/// What decoding a buffer as a message yields: the header, then as many
/// questions, answers, authority records and additional records as the
/// header announces, in that order; or the first failure. Bytes after the
/// last record are not looked at.
pub open spec fn message_of(data: Seq<u8>) -> Result<MessageView, DnsError> {
    match header_at(data, 0) {
        Err(e) => Err(e),
        Ok((header, q_at)) => match questions_at(data, q_at, header.qdcount as nat) {
            Err(e) => Err(e),
            Ok((questions, an_at)) => match records_at(data, an_at, header.ancount as nat) {
                Err(e) => Err(e),
                Ok((answers, ns_at)) => match records_at(data, ns_at, header.nscount as nat) {
                    Err(e) => Err(e),
                    Ok((authorities, ar_at)) => match records_at(data, ar_at, header.arcount as nat) {
                        Err(e) => Err(e),
                        Ok((additionals, _)) => Ok(
                            MessageView { header, questions, answers, authorities, additionals },
                        ),
                    },
                },
            },
        },
    }
}

/// What decoding a buffer up to the end of its answer section yields: the
/// answers, or the first failure in the header, the questions or the
/// answers. What follows the answers is not looked at.
pub open spec fn answers_of(data: Seq<u8>) -> Result<Seq<RecordView>, DnsError> {
    match header_at(data, 0) {
        Err(e) => Err(e),
        Ok((header, q_at)) => match questions_at(data, q_at, header.qdcount as nat) {
            Err(e) => Err(e),
            Ok((_, an_at)) => match records_at(data, an_at, header.ancount as nat) {
                Err(e) => Err(e),
                Ok((answers, _)) => Ok(answers),
            },
        },
    }
}

/// The wire forms of questions, one after the other.
pub open spec fn questions_bytes(qs: Seq<QuestionView>) -> Seq<u8>
    decreases qs.len(),
{
    if qs.len() == 0 {
        Seq::empty()
    } else {
        questions_bytes(qs.drop_last()) + question_bytes(qs.last())
    }
}

/// The wire forms of records, one after the other.
pub open spec fn records_bytes(rs: Seq<RecordView>) -> Seq<u8>
    decreases rs.len(),
{
    if rs.len() == 0 {
        Seq::empty()
    } else {
        records_bytes(rs.drop_last()) + rr_bytes(rs.last())
    }
}

/// The wire form of a message.
pub open spec fn message_bytes(m: MessageView) -> Seq<u8> {
    header_bytes(m.header) + questions_bytes(m.questions) + records_bytes(m.answers)
        + records_bytes(m.authorities) + records_bytes(m.additionals)
}

/// Whether the name of every question can be encoded.
pub open spec fn questions_encodable(qs: Seq<QuestionView>) -> bool {
    forall|i: int| 0 <= i < qs.len() ==> encodable((#[trigger] qs[i]).qname)
}

/// Whether the name of every record can be encoded.
pub open spec fn records_encodable(rs: Seq<RecordView>) -> bool {
    forall|i: int| 0 <= i < rs.len() ==> encodable((#[trigger] rs[i]).name)
}

/// Whether every name that encoding a message writes can be encoded.
pub open spec fn message_encodable(m: MessageView) -> bool {
    &&& questions_encodable(m.questions)
    &&& records_encodable(m.answers)
    &&& records_encodable(m.authorities)
    &&& records_encodable(m.additionals)
}

/// Once a question fails to decode, decoding more questions fails in the
/// same way.
proof fn lemma_questions_fail_on(data: Seq<u8>, pos: int, done: nat, count: nat)
    requires
        done <= count,
        questions_at(data, pos, done) is Err,
    ensures
        questions_at(data, pos, count) == questions_at(data, pos, done),
    decreases count,
{
    if done < count {
        lemma_questions_fail_on(data, pos, done, (count - 1) as nat);
    }
}

/// Once a record fails to decode, decoding more records fails in the same
/// way.
proof fn lemma_records_fail_on(data: Seq<u8>, pos: int, done: nat, count: nat)
    requires
        done <= count,
        records_at(data, pos, done) is Err,
    ensures
        records_at(data, pos, count) == records_at(data, pos, done),
    decreases count,
{
    if done < count {
        lemma_records_fail_on(data, pos, done, (count - 1) as nat);
    }
}

/// Decodes `count` questions at the cursor. On failure the cursor is left
/// at the question that failed.
fn parse_questions(cursor: &mut Cursor, count: u16) -> (r: Result<Vec<DnsQuestion>, DnsError>)
    ensures
        final(cursor).data@ == old(cursor).data@,
        match r {
            Ok(qs) => questions_at(old(cursor).data@, old(cursor).pos as int, count as nat) == Ok::<
                (Seq<QuestionView>, int),
                DnsError,
            >((questions_view(qs@), final(cursor).pos as int)),
            Err(e) => questions_at(old(cursor).data@, old(cursor).pos as int, count as nat) == Err::<
                (Seq<QuestionView>, int),
                DnsError,
            >(e),
        },
{
    let ghost data = cursor.data@;
    let ghost start = cursor.pos as int;
    let mut questions: Vec<DnsQuestion> = Vec::new();
    let mut i: u16 = 0;
    assert(questions_view(questions@) == Seq::<QuestionView>::empty());
    while i < count
        invariant
            i <= count,
            data == old(cursor).data@,
            start == old(cursor).pos,
            cursor.data@ == data,
            questions_at(data, start, i as nat) == Ok::<(Seq<QuestionView>, int), DnsError>(
                (questions_view(questions@), cursor.pos as int),
            ),
        decreases count - i,
    {
        let ghost before = questions_view(questions@);
        match DnsQuestion::parse(cursor) {
            Ok(q) => {
                questions.push(q);
                assert(questions_view(questions@) == before.push(q@));
            },
            Err(e) => {
                proof {
                    lemma_questions_fail_on(data, start, (i + 1) as nat, count as nat);
                }
                return Err(e);
            },
        }
        i = i + 1;
    }
    Ok(questions)
}

/// Decodes `count` resource records at the cursor. On failure the cursor is
/// left at the record that failed.
fn parse_records(cursor: &mut Cursor, count: u16) -> (r: Result<Vec<DnsResourceRecord>, DnsError>)
    ensures
        final(cursor).data@ == old(cursor).data@,
        match r {
            Ok(rs) => records_at(old(cursor).data@, old(cursor).pos as int, count as nat) == Ok::<
                (Seq<RecordView>, int),
                DnsError,
            >((records_view(rs@), final(cursor).pos as int)),
            Err(e) => records_at(old(cursor).data@, old(cursor).pos as int, count as nat) == Err::<
                (Seq<RecordView>, int),
                DnsError,
            >(e),
        },
{
    let ghost data = cursor.data@;
    let ghost start = cursor.pos as int;
    let mut records: Vec<DnsResourceRecord> = Vec::new();
    let mut i: u16 = 0;
    assert(records_view(records@) == Seq::<RecordView>::empty());
    while i < count
        invariant
            i <= count,
            data == old(cursor).data@,
            start == old(cursor).pos,
            cursor.data@ == data,
            records_at(data, start, i as nat) == Ok::<(Seq<RecordView>, int), DnsError>(
                (records_view(records@), cursor.pos as int),
            ),
        decreases count - i,
    {
        let ghost before = records_view(records@);
        match DnsResourceRecord::parse(cursor) {
            Ok(r) => {
                records.push(r);
                assert(records_view(records@) == before.push(r@));
            },
            Err(e) => {
                proof {
                    lemma_records_fail_on(data, start, (i + 1) as nat, count as nat);
                }
                return Err(e);
            },
        }
        i = i + 1;
    }
    Ok(records)
}

/// Appends the wire forms of `records` to `out`.
fn push_records(out: &mut Vec<u8>, records: &Vec<DnsResourceRecord>) -> (r: Result<(), DnsError>)
    ensures
        match r {
            Ok(_) => {
                &&& records_encodable(records_view(records@))
                &&& final(out)@ == old(out)@ + records_bytes(records_view(records@))
            },
            Err(e) => !records_encodable(records_view(records@)) && e == DnsError::LabelTooLong,
        },
{
    let ghost all = records_view(records@);
    let mut i: usize = 0;
    while i < records.len()
        invariant
            i <= records.len(),
            all == records_view(records@),
            forall|j: int| 0 <= j < i ==> encodable((#[trigger] all[j]).name),
            out@ == old(out)@ + records_bytes(all.take(i as int)),
        decreases records.len() - i,
    {
        let record = &records[i];
        assert(all[i as int] == record@);
        match push_record(
            out,
            &record.name,
            record.rtype,
            record.class,
            record.ttl,
            record.rdlength,
            &record.rdata_raw,
        ) {
            Ok(_) => {},
            Err(e) => {
                return Err(e);
            },
        }
        proof {
            let next = all.take(i + 1);
            assert(next.drop_last() == all.take(i as int));
            assert(next.last() == record@);
        }
        i = i + 1;
    }
    assert(all.take(i as int) == all);
    Ok(())
}

/// The query for the internet address of the dotted hostname `url`: a
/// query header with the id `QUERY_ID` that asks for recursion, one
/// question, and no records.
pub open spec fn address_query(url: Seq<u8>) -> MessageView {
    MessageView {
        header: query_header(QUERY_ID, 0, false, true, 1),
        questions: seq![address_question(url)],
        answers: Seq::empty(),
        authorities: Seq::empty(),
        additionals: Seq::empty(),
    }
}

impl DnsMessage {
    /// Decodes a buffer as a message. The first failure abandons the whole
    /// decode. A message that decodes can be encoded.
    pub fn parse(data: &[u8]) -> (r: Result<Self, DnsError>)
        ensures
            match r {
                Ok(m) => message_of(data@) == Ok::<MessageView, DnsError>(m@) && message_encodable(
                    m@,
                ),
                Err(e) => message_of(data@) == Err::<MessageView, DnsError>(e),
            },
    {
        let mut cursor = Cursor::new(data);
        let header = match DnsHeader::parse(&mut cursor) {
            Ok(h) => h,
            Err(e) => {
                return Err(e);
            },
        };
        let questions = match parse_questions(&mut cursor, header.qdcount) {
            Ok(qs) => qs,
            Err(e) => {
                return Err(e);
            },
        };
        let answers = match parse_records(&mut cursor, header.ancount) {
            Ok(rs) => rs,
            Err(e) => {
                return Err(e);
            },
        };
        let authorities = match parse_records(&mut cursor, header.nscount) {
            Ok(rs) => rs,
            Err(e) => {
                return Err(e);
            },
        };
        let additionals = match parse_records(&mut cursor, header.arcount) {
            Ok(rs) => rs,
            Err(e) => {
                return Err(e);
            },
        };
        proof {
            lemma_decoded_message_encodes(data@);
        }
        Ok(Self { header, questions, answers, authorities, additionals })
    }

    /// Decodes the answer section of a buffer: the header and the questions
    /// are decoded to find it, and what follows it is not looked at.
    pub fn parse_answers(data: &[u8]) -> (r: Result<Vec<DnsResourceRecord>, DnsError>)
        ensures
            match r {
                Ok(answers) => answers_of(data@) == Ok::<Seq<RecordView>, DnsError>(
                    records_view(answers@),
                ),
                Err(e) => answers_of(data@) == Err::<Seq<RecordView>, DnsError>(e),
            },
    {
        let mut cursor = Cursor::new(data);
        let header = match DnsHeader::parse(&mut cursor) {
            Ok(h) => h,
            Err(e) => {
                return Err(e);
            },
        };
        match parse_questions(&mut cursor, header.qdcount) {
            Ok(_) => {},
            Err(e) => {
                return Err(e);
            },
        }
        parse_records(&mut cursor, header.ancount)
    }

    /// The wire form of the message: the header, then each question, then
    /// each record of the three sections. The header's counts are written as
    /// they are.
    ///
    /// Fails with `LabelTooLong` exactly when a label of the name of a
    /// question or of a record has more than 63 bytes.
    pub fn to_bytes(&self) -> (r: Result<Vec<u8>, DnsError>)
        ensures
            match r {
                Ok(bytes) => message_encodable(self@) && bytes@ == message_bytes(self@),
                Err(e) => !message_encodable(self@) && e == DnsError::LabelTooLong,
            },
    {
        let mut msg: Vec<u8> = Vec::new();
        let header = self.header.to_bytes();
        push_all(&mut msg, header.as_slice());
        let ghost all = questions_view(self.questions@);
        let mut i: usize = 0;
        while i < self.questions.len()
            invariant
                i <= self.questions.len(),
                all == questions_view(self.questions@),
                forall|j: int| 0 <= j < i ==> encodable((#[trigger] all[j]).qname),
                msg@ == header_bytes(self.header) + questions_bytes(all.take(i as int)),
            decreases self.questions.len() - i,
        {
            let question = &self.questions[i];
            assert(all[i as int] == question@);
            match question.to_bytes() {
                Ok(bytes) => push_all(&mut msg, bytes.as_slice()),
                Err(e) => {
                    return Err(e);
                },
            }
            proof {
                let next = all.take(i + 1);
                assert(next.drop_last() == all.take(i as int));
                assert(next.last() == question@);
            }
            i = i + 1;
        }
        assert(all.take(i as int) == all);
        match push_records(&mut msg, &self.answers) {
            Ok(_) => {},
            Err(e) => {
                return Err(e);
            },
        }
        match push_records(&mut msg, &self.authorities) {
            Ok(_) => {},
            Err(e) => {
                return Err(e);
            },
        }
        match push_records(&mut msg, &self.additionals) {
            Ok(_) => {},
            Err(e) => {
                return Err(e);
            },
        }
        Ok(msg)
    }

    /// The query for the internet address of a hostname.
    pub fn single_query(url: &str) -> (m: Self)
        ensures
            m@ == address_query(url.spec_bytes()),
    {
        let header = DnsHeader::query(QUERY_ID, 1, false);
        let mut questions: Vec<DnsQuestion> = Vec::new();
        let question = DnsQuestion::query(url);
        questions.push(question);
        let m = Self {
            header,
            questions,
            answers: Vec::new(),
            authorities: Vec::new(),
            additionals: Vec::new(),
        };
        assert(m@.questions =~= seq![question@]);
        assert(m@.answers =~= Seq::empty());
        assert(m@.authorities =~= Seq::empty());
        assert(m@.additionals =~= Seq::empty());
        m
    }
}

/// Whether a message survives a round trip through the wire: the header's
/// fields fit their bits, its counts are the lengths of the sections, and
/// every question and record is valid.
pub open spec fn valid_message(m: MessageView) -> bool {
    &&& valid_header(m.header)
    &&& m.header.qdcount == m.questions.len()
    &&& m.header.ancount == m.answers.len()
    &&& m.header.nscount == m.authorities.len()
    &&& m.header.arcount == m.additionals.len()
    &&& forall|i: int| 0 <= i < m.questions.len() ==> valid_name((#[trigger] m.questions[i]).qname)
    &&& forall|i: int| 0 <= i < m.answers.len() ==> valid_record(#[trigger] m.answers[i])
    &&& forall|i: int| 0 <= i < m.authorities.len() ==> valid_record(#[trigger] m.authorities[i])
    &&& forall|i: int| 0 <= i < m.additionals.len() ==> valid_record(#[trigger] m.additionals[i])
}

/// Questions with valid names, standing in a buffer one after the other in
/// their wire forms, decode to themselves, and the decode ends right after
/// their bytes.
pub proof fn lemma_questions_inline(data: Seq<u8>, pos: int, qs: Seq<QuestionView>)
    requires
        forall|i: int| 0 <= i < qs.len() ==> valid_name((#[trigger] qs[i]).qname),
        0 <= pos,
        pos + questions_bytes(qs).len() <= data.len(),
        data.subrange(pos, pos + questions_bytes(qs).len()) == questions_bytes(qs),
    ensures
        questions_at(data, pos, qs.len()) == Ok::<(Seq<QuestionView>, int), DnsError>(
            (qs, pos + questions_bytes(qs).len()),
        ),
    decreases qs.len(),
{
    if qs.len() == 0 {
        assert(qs == Seq::<QuestionView>::empty());
    } else {
        let before = qs.drop_last();
        let head = questions_bytes(before);
        let tail = question_bytes(qs.last());
        let wire = questions_bytes(qs);
        let window = data.subrange(pos, pos + wire.len());
        assert(wire == head + tail);
        assert(data.subrange(pos, pos + head.len()) == head) by {
            assert forall|i: int| 0 <= i < head.len() implies data[pos + i] == head[i] by {
                assert(data[pos + i] == window[i]);
            }
        }
        lemma_questions_inline(data, pos, before);
        let at = pos + head.len();
        assert(data.subrange(at, at + tail.len()) == tail) by {
            assert forall|i: int| 0 <= i < tail.len() implies data[at + i] == tail[i] by {
                assert(data[at + i] == window[head.len() + i]);
            }
        }
        lemma_question_inline(data, at, qs.last());
        assert(before.push(qs.last()) == qs);
    }
}

/// Valid records, standing in a buffer one after the other in their wire
/// forms, decode to themselves, and the decode ends right after their bytes.
pub proof fn lemma_records_inline(data: Seq<u8>, pos: int, rs: Seq<RecordView>)
    requires
        forall|i: int| 0 <= i < rs.len() ==> valid_record(#[trigger] rs[i]),
        0 <= pos,
        pos + records_bytes(rs).len() <= data.len(),
        data.subrange(pos, pos + records_bytes(rs).len()) == records_bytes(rs),
    ensures
        records_at(data, pos, rs.len()) == Ok::<(Seq<RecordView>, int), DnsError>(
            (rs, pos + records_bytes(rs).len()),
        ),
    decreases rs.len(),
{
    if rs.len() == 0 {
        assert(rs == Seq::<RecordView>::empty());
    } else {
        let before = rs.drop_last();
        let head = records_bytes(before);
        let tail = rr_bytes(rs.last());
        let wire = records_bytes(rs);
        let window = data.subrange(pos, pos + wire.len());
        assert(wire == head + tail);
        assert(data.subrange(pos, pos + head.len()) == head) by {
            assert forall|i: int| 0 <= i < head.len() implies data[pos + i] == head[i] by {
                assert(data[pos + i] == window[i]);
            }
        }
        lemma_records_inline(data, pos, before);
        let at = pos + head.len();
        assert(data.subrange(at, at + tail.len()) == tail) by {
            assert forall|i: int| 0 <= i < tail.len() implies data[at + i] == tail[i] by {
                assert(data[at + i] == window[head.len() + i]);
            }
        }
        lemma_record_inline(data, at, rs.last());
        assert(before.push(rs.last()) == rs);
    }
}

/// If a buffer starts with `head + part`, it starts with `head`, and `part`
/// stands in it right after `head`.
proof fn lemma_split_prefix(data: Seq<u8>, head: Seq<u8>, part: Seq<u8>)
    requires
        (head + part).len() <= data.len(),
        data.subrange(0, (head + part).len() as int) == head + part,
    ensures
        head.len() + part.len() <= data.len(),
        data.subrange(0, head.len() as int) == head,
        data.subrange(head.len() as int, (head.len() + part.len()) as int) == part,
{
    let whole = head + part;
    let window = data.subrange(0, whole.len() as int);
    assert forall|i: int| 0 <= i < head.len() implies data[i] == head[i] by {
        assert(data[i] == window[i]);
        assert(whole[i] == head[i]);
    }
    assert forall|i: int| 0 <= i < part.len() implies data[head.len() + i] == part[i] by {
        assert(data[head.len() + i] == window[head.len() + i]);
        assert(whole[head.len() + i] == part[i]);
    }
}

/// Where the parts of a message stand in a buffer that starts with the
/// message's wire form.
proof fn lemma_message_layout(m: MessageView, rest: Seq<u8>)
    ensures
        ({
            let data = message_bytes(m) + rest;
            let h = header_bytes(m.header);
            let q = questions_bytes(m.questions);
            let an = records_bytes(m.answers);
            let ns = records_bytes(m.authorities);
            let ar = records_bytes(m.additionals);
            let q_at = h.len() as int;
            let an_at = q_at + q.len();
            let ns_at = an_at + an.len();
            let ar_at = ns_at + ns.len();
            let end_at = ar_at + ar.len();
            &&& q_at == HEADER_LEN
            &&& end_at <= data.len()
            &&& data.subrange(0, q_at) == h
            &&& data.subrange(q_at, an_at) == q
            &&& data.subrange(an_at, ns_at) == an
            &&& data.subrange(ns_at, ar_at) == ns
            &&& data.subrange(ar_at, end_at) == ar
        }),
{
    let h = header_bytes(m.header);
    let q = questions_bytes(m.questions);
    let an = records_bytes(m.answers);
    let ns = records_bytes(m.authorities);
    let ar = records_bytes(m.additionals);
    let data = message_bytes(m) + rest;
    assert(data.subrange(0, message_bytes(m).len() as int) == message_bytes(m));
    lemma_split_prefix(data, h + q + an + ns, ar);
    lemma_split_prefix(data, h + q + an, ns);
    lemma_split_prefix(data, h + q, an);
    lemma_split_prefix(data, h, q);
}

/// A buffer that starts with the wire form of a valid message decodes to
/// that message, whatever follows it.
pub proof fn lemma_message_prefix_decodes(m: MessageView, rest: Seq<u8>)
    requires
        valid_message(m),
    ensures
        message_of(message_bytes(m) + rest) == Ok::<MessageView, DnsError>(m),
{
    let data = message_bytes(m) + rest;
    let q_at = header_bytes(m.header).len() as int;
    let an_at = q_at + questions_bytes(m.questions).len();
    let ns_at = an_at + records_bytes(m.answers).len();
    let ar_at = ns_at + records_bytes(m.authorities).len();
    lemma_message_layout(m, rest);
    lemma_header_inline(data, 0, m.header);
    lemma_questions_inline(data, q_at, m.questions);
    lemma_records_inline(data, an_at, m.answers);
    lemma_records_inline(data, ns_at, m.authorities);
    lemma_records_inline(data, ar_at, m.additionals);
}

/// Decoding the wire form of a valid message gives the message back.
pub proof fn lemma_message_round_trip(m: MessageView)
    requires
        valid_message(m),
    ensures
        message_of(message_bytes(m)) == Ok::<MessageView, DnsError>(m),
{
    lemma_message_prefix_decodes(m, Seq::empty());
    assert(message_bytes(m) + Seq::<u8>::empty() == message_bytes(m));
}

/// A buffer that ends inside the wire forms of questions with valid names,
/// or before them, fails to decode them with `Truncated`.
pub proof fn lemma_questions_cut(data: Seq<u8>, pos: int, qs: Seq<QuestionView>)
    requires
        qs.len() > 0,
        forall|i: int| 0 <= i < qs.len() ==> valid_name((#[trigger] qs[i]).qname),
        0 <= pos,
        holds_start_of(data, pos, questions_bytes(qs)),
        data.len() < pos + questions_bytes(qs).len(),
    ensures
        questions_at(data, pos, qs.len()) == Err::<(Seq<QuestionView>, int), DnsError>(
            DnsError::Truncated,
        ),
    decreases qs.len(),
{
    let before = qs.drop_last();
    let head = questions_bytes(before);
    lemma_holds_parts(data, pos, head, question_bytes(qs.last()));
    assert((qs.len() - 1) as nat == before.len());
    if before.len() == 0 {
        assert(questions_at(data, pos, 0) == Ok::<(Seq<QuestionView>, int), DnsError>(
            (Seq::empty(), pos),
        ));
        lemma_question_cut(data, pos, qs.last());
    } else if data.len() < pos + head.len() {
        lemma_questions_cut(data, pos, before);
    } else {
        lemma_holds_all(data, pos, head);
        lemma_questions_inline(data, pos, before);
        lemma_question_cut(data, pos + head.len(), qs.last());
    }
}

/// A buffer that ends inside the wire forms of valid records, or before
/// them, fails to decode them with `Truncated`.
pub proof fn lemma_records_cut(data: Seq<u8>, pos: int, rs: Seq<RecordView>)
    requires
        rs.len() > 0,
        forall|i: int| 0 <= i < rs.len() ==> valid_record(#[trigger] rs[i]),
        0 <= pos,
        holds_start_of(data, pos, records_bytes(rs)),
        data.len() < pos + records_bytes(rs).len(),
    ensures
        records_at(data, pos, rs.len()) == Err::<(Seq<RecordView>, int), DnsError>(
            DnsError::Truncated,
        ),
    decreases rs.len(),
{
    let before = rs.drop_last();
    let head = records_bytes(before);
    lemma_holds_parts(data, pos, head, rr_bytes(rs.last()));
    assert((rs.len() - 1) as nat == before.len());
    if before.len() == 0 {
        assert(records_at(data, pos, 0) == Ok::<(Seq<RecordView>, int), DnsError>(
            (Seq::empty(), pos),
        ));
        lemma_record_cut(data, pos, rs.last());
    } else if data.len() < pos + head.len() {
        lemma_records_cut(data, pos, before);
    } else {
        lemma_holds_all(data, pos, head);
        lemma_records_inline(data, pos, before);
        lemma_record_cut(data, pos + head.len(), rs.last());
    }
}

/// Where a message's wire form, cut short, holds the start of each of the
/// message's parts.
proof fn lemma_cut_layout(m: MessageView, k: int)
    requires
        0 <= k <= message_bytes(m).len(),
    ensures
        ({
            let data = message_bytes(m).take(k);
            let h = header_bytes(m.header);
            let q = questions_bytes(m.questions);
            let an = records_bytes(m.answers);
            let ns = records_bytes(m.authorities);
            let ar = records_bytes(m.additionals);
            let q_at = h.len() as int;
            let an_at = q_at + q.len();
            let ns_at = an_at + an.len();
            let ar_at = ns_at + ns.len();
            &&& q_at == HEADER_LEN
            &&& data.len() == k
            &&& message_bytes(m).len() == ar_at + ar.len()
            &&& holds_start_of(data, 0, h)
            &&& holds_start_of(data, q_at, q)
            &&& holds_start_of(data, an_at, an)
            &&& holds_start_of(data, ns_at, ns)
            &&& holds_start_of(data, ar_at, ar)
        }),
{
    let h = header_bytes(m.header);
    let q = questions_bytes(m.questions);
    let an = records_bytes(m.answers);
    let ns = records_bytes(m.authorities);
    let ar = records_bytes(m.additionals);
    let data = message_bytes(m).take(k);
    lemma_cut_holds(message_bytes(m), k);
    lemma_holds_parts(data, 0, h + q + an + ns, ar);
    lemma_holds_parts(data, 0, h + q + an, ns);
    lemma_holds_parts(data, 0, h + q, an);
    lemma_holds_parts(data, 0, h, q);
}

/// The wire form of a valid message, cut short by one byte or by more, fails
/// to decode with `Truncated`: no shorter buffer is taken for the message.
pub proof fn lemma_truncated_message_fails(m: MessageView, k: int)
    requires
        valid_message(m),
        0 <= k < message_bytes(m).len(),
    ensures
        message_of(message_bytes(m).take(k)) == Err::<MessageView, DnsError>(DnsError::Truncated),
{
    let data = message_bytes(m).take(k);
    let q_at = header_bytes(m.header).len() as int;
    let an_at = q_at + questions_bytes(m.questions).len();
    let ns_at = an_at + records_bytes(m.answers).len();
    let ar_at = ns_at + records_bytes(m.authorities).len();
    lemma_cut_layout(m, k);
    if k >= q_at {
        lemma_holds_all(data, 0, header_bytes(m.header));
        lemma_header_inline(data, 0, m.header);
        if k < an_at {
            lemma_questions_cut(data, q_at, m.questions);
        } else {
            lemma_holds_all(data, q_at, questions_bytes(m.questions));
            lemma_questions_inline(data, q_at, m.questions);
            if k < ns_at {
                lemma_records_cut(data, an_at, m.answers);
            } else {
                lemma_holds_all(data, an_at, records_bytes(m.answers));
                lemma_records_inline(data, an_at, m.answers);
                if k < ar_at {
                    lemma_records_cut(data, ns_at, m.authorities);
                } else {
                    lemma_holds_all(data, ns_at, records_bytes(m.authorities));
                    lemma_records_inline(data, ns_at, m.authorities);
                    lemma_records_cut(data, ar_at, m.additionals);
                }
            }
        }
    }
}

/// The names of all questions that decode are valid.
pub proof fn lemma_decoded_questions_are_valid(data: Seq<u8>, pos: int, count: nat)
    requires
        questions_at(data, pos, count) is Ok,
    ensures
        ({
            let qs = questions_at(data, pos, count)->Ok_0.0;
            &&& qs.len() == count
            &&& forall|i: int| 0 <= i < qs.len() ==> valid_name((#[trigger] qs[i]).qname)
        }),
    decreases count,
{
    if count > 0 {
        let (before, at) = questions_at(data, pos, (count - 1) as nat)->Ok_0;
        lemma_decoded_questions_are_valid(data, pos, (count - 1) as nat);
        lemma_decoded_question_is_valid(data, at);
        let qs = questions_at(data, pos, count)->Ok_0.0;
        assert forall|i: int| 0 <= i < qs.len() implies valid_name((#[trigger] qs[i]).qname) by {
            if i < before.len() {
                assert(qs[i] == before[i]);
            }
        }
    }
}

/// The names of all records that decode are valid.
pub proof fn lemma_decoded_records_are_valid(data: Seq<u8>, pos: int, count: nat)
    requires
        records_at(data, pos, count) is Ok,
    ensures
        ({
            let rs = records_at(data, pos, count)->Ok_0.0;
            &&& rs.len() == count
            &&& forall|i: int| 0 <= i < rs.len() ==> valid_name((#[trigger] rs[i]).name)
        }),
    decreases count,
{
    if count > 0 {
        let (before, at) = records_at(data, pos, (count - 1) as nat)->Ok_0;
        lemma_decoded_records_are_valid(data, pos, (count - 1) as nat);
        lemma_decoded_record_is_consistent(data, at);
        let rs = records_at(data, pos, count)->Ok_0.0;
        assert forall|i: int| 0 <= i < rs.len() implies valid_name((#[trigger] rs[i]).name) by {
            if i < before.len() {
                assert(rs[i] == before[i]);
            }
        }
    }
}

/// Every message that decodes can be encoded: its sections have the lengths
/// that its header announces, and no label of its names is longer than 63
/// bytes.
pub proof fn lemma_decoded_message_encodes(data: Seq<u8>)
    requires
        message_of(data) is Ok,
    ensures
        ({
            let m = message_of(data)->Ok_0;
            &&& message_encodable(m)
            &&& m.questions.len() == m.header.qdcount
            &&& m.answers.len() == m.header.ancount
            &&& m.authorities.len() == m.header.nscount
            &&& m.additionals.len() == m.header.arcount
        }),
{
    let (header, q_at) = header_at(data, 0)->Ok_0;
    let (questions, an_at) = questions_at(data, q_at, header.qdcount as nat)->Ok_0;
    let (answers, ns_at) = records_at(data, an_at, header.ancount as nat)->Ok_0;
    let (authorities, ar_at) = records_at(data, ns_at, header.nscount as nat)->Ok_0;
    lemma_decoded_questions_are_valid(data, q_at, header.qdcount as nat);
    lemma_decoded_records_are_valid(data, an_at, header.ancount as nat);
    lemma_decoded_records_are_valid(data, ns_at, header.nscount as nat);
    lemma_decoded_records_are_valid(data, ar_at, header.arcount as nat);
}

/// The answers of a message that decodes are what decoding up to the end of
/// the answer section yields.
pub proof fn lemma_answers_of_message(data: Seq<u8>)
    requires
        message_of(data) is Ok,
    ensures
        answers_of(data) == Ok::<Seq<RecordView>, DnsError>(message_of(data)->Ok_0.answers),
{
}

} // verus!
