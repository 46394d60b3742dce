//! The addresses that a response holds.

use vstd::prelude::*;
use crate::dns_components::dns_message::{answers_of, records_view, DnsMessage};
use crate::dns_components::dns_rdata::{DnsRdata, Ipv4Addr, RdataView};
use crate::dns_components::dns_rr::RecordView;
use crate::error::DnsError;

verus! {

/// The addresses among the payloads of `records`, in their order.
pub open spec fn addresses_of(records: Seq<RecordView>) -> Seq<Seq<u8>>
    decreases records.len(),
{
    if records.len() == 0 {
        Seq::empty()
    } else {
        match records.last().rdata {
            RdataView::Address(octets) => addresses_of(records.drop_last()).push(octets),
            RdataView::Alias(_) => addresses_of(records.drop_last()),
        }
    }
}

/// The addresses of a vector of addresses, each as its four bytes.
pub open spec fn addresses_view(addresses: Seq<Ipv4Addr>) -> Seq<Seq<u8>> {
    addresses.map_values(|a: Ipv4Addr| a@)
}

/// What `get_ip` finds in a buffer: the addresses of the answer section, or
/// the failure that decoding up to the end of that section meets.
pub open spec fn answered_addresses(data: Seq<u8>) -> Result<Seq<Seq<u8>>, DnsError> {
    match answers_of(data) {
        Ok(answers) => Ok(addresses_of(answers)),
        Err(e) => Err(e),
    }
}

/// The addresses in the answer section of a response, in their order.
///
/// The sections after the answers are not looked at. A buffer that does not
/// decode up to the end of its answers gives the failure that was met.
pub fn get_ip(data: &[u8]) -> (r: Result<Vec<Ipv4Addr>, DnsError>)
    ensures
        match r {
            Ok(addresses) => answered_addresses(data@) == Ok::<Seq<Seq<u8>>, DnsError>(
                addresses_view(addresses@),
            ),
            Err(e) => answered_addresses(data@) == Err::<Seq<Seq<u8>>, DnsError>(e),
        },
{
    let records = match DnsMessage::parse_answers(data) {
        Ok(records) => records,
        Err(e) => {
            return Err(e);
        },
    };
    let mut addresses: Vec<Ipv4Addr> = Vec::new();
    let ghost answers = records_view(records@);
    let mut i: usize = 0;
    assert(addresses_view(addresses@) == Seq::<Seq<u8>>::empty());
    while i < records.len()
        invariant
            i <= records.len(),
            answers == records_view(records@),
            addresses_view(addresses@) == addresses_of(answers.take(i as int)),
        decreases records.len() - i,
    {
        let ghost found = addresses_view(addresses@);
        proof {
            let next = answers.take(i + 1);
            assert(next.drop_last() == answers.take(i as int));
            assert(next.last() == records@[i as int]@);
        }
        match &records[i].rdata {
            DnsRdata::ARecord(addr) => {
                addresses.push(*addr);
                assert(addresses_view(addresses@) == found.push(addr@));
            },
            DnsRdata::CnameRecord(_) => {},
        }
        i = i + 1;
    }
    assert(answers.take(i as int) == answers);
    Ok(addresses)
}

} // verus!
