//! The bytes of a query, ready to be sent.

use vstd::prelude::*;
use vstd::string::StringSliceAdditionalSpecFns;
use crate::dns_components::dns_header::{header_bytes, query_header, DnsHeader};
use crate::dns_components::dns_message::{address_query, message_bytes, DnsMessage};
use crate::dns_components::dns_name::{encodable, name_bytes, split_dots, DnsName};
use crate::dns_components::dns_question::{address_question, question_bytes, DnsQuestion};
use crate::error::DnsError;

verus! {

/// The 12 bytes of a query header.
pub fn get_header(id: u16, opcode: u8, truncate: bool, recurse: bool, qdcount: u16) -> (bytes: [u8;
    12])
    ensures
        bytes@ == header_bytes(query_header(id, opcode, truncate, recurse, qdcount)),
{
    let header = DnsHeader {
        id,
        qr: false,
        opcode,
        aa: false,
        tc: truncate,
        rd: recurse,
        ra: false,
        z: 0,
        rcode: 0,
        qdcount,
        ancount: 0,
        nscount: 0,
        arcount: 0,
    };
    header.to_bytes()
}

/// The wire form of the name of a dotted hostname.
///
/// Fails with `LabelTooLong` exactly when a part between two dots has more
/// than 63 bytes.
pub fn get_qname_bytes(url: &str) -> (r: Result<Vec<u8>, DnsError>)
    ensures
        match r {
            Ok(bytes) => encodable(split_dots(url.spec_bytes())) && bytes@ == name_bytes(
                split_dots(url.spec_bytes()),
            ),
            Err(e) => !encodable(split_dots(url.spec_bytes())) && e == DnsError::LabelTooLong,
        },
{
    DnsName::from_string(url).to_bytes()
}

/// The wire form of the question for the internet address of a hostname.
///
/// Fails with `LabelTooLong` exactly when a part between two dots has more
/// than 63 bytes.
pub fn get_question_entry(url: &str) -> (r: Result<Vec<u8>, DnsError>)
    ensures
        match r {
            Ok(bytes) => encodable(split_dots(url.spec_bytes())) && bytes@ == question_bytes(
                address_question(url.spec_bytes()),
            ),
            Err(e) => !encodable(split_dots(url.spec_bytes())) && e == DnsError::LabelTooLong,
        },
{
    DnsQuestion::query(url).to_bytes()
}

/// The wire form of the query for the internet address of a hostname: a
/// query header with the id `QUERY_ID` and one question.
///
/// Fails with `LabelTooLong` exactly when a part between two dots has more
/// than 63 bytes.
pub fn get_dns_request(url: &str) -> (r: Result<Vec<u8>, DnsError>)
    ensures
        match r {
            Ok(bytes) => encodable(split_dots(url.spec_bytes())) && bytes@ == message_bytes(
                address_query(url.spec_bytes()),
            ),
            Err(e) => !encodable(split_dots(url.spec_bytes())) && e == DnsError::LabelTooLong,
        },
{
    DnsMessage::single_query(url).to_bytes()
}

} // verus!
