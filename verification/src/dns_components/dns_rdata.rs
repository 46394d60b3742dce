//! The payload of a resource record, interpreted by the record's type.

use vstd::prelude::*;
use crate::dns_components::dns_name::{join_dots, DnsName};

verus! {

/// The decimal digits of a byte in ASCII, without leading zeros.
pub open spec fn decimal(n: u8) -> Seq<u8> {
    if n < 10 {
        seq![(48 + n) as u8]
    } else if n < 100 {
        seq![(48 + n / 10) as u8, (48 + n % 10) as u8]
    } else {
        seq![(48 + n / 100) as u8, (48 + (n / 10) % 10) as u8, (48 + n % 10) as u8]
    }
}

/// The dotted decimal form of four bytes, in ASCII.
pub open spec fn dotted_decimal(octets: Seq<u8>) -> Seq<u8> {
    decimal(octets[0]) + seq![0x2Eu8] + decimal(octets[1]) + seq![0x2Eu8] + decimal(octets[2])
        + seq![0x2Eu8] + decimal(octets[3])
}

/// Appends the decimal digits of `n` to `out`.
fn push_decimal(out: &mut Vec<u8>, n: u8)
    ensures
        final(out)@ == old(out)@ + decimal(n),
{
    if n >= 100 {
        out.push(48 + n / 100);
    }
    if n >= 10 {
        out.push(48 + (n / 10) % 10);
    }
    out.push(48 + n % 10);
    assert(out@ =~= old(out)@ + decimal(n));
}

/// An IPv4 address: four bytes, most significant first.
#[derive(PartialEq, Eq, Debug, Clone, Copy, Hash)]
pub struct Ipv4Addr {
    pub octets: [u8; 4],
}

impl View for Ipv4Addr {
    type V = Seq<u8>;

    open spec fn view(&self) -> Seq<u8> {
        self.octets@
    }
}

impl Ipv4Addr {
    /// The address `a.b.c.d`.
    pub fn new(a: u8, b: u8, c: u8, d: u8) -> (r: Self)
        ensures
            r@ == seq![a, b, c, d],
    {
        let r = Self { octets: [a, b, c, d] };
        assert(r@ =~= seq![a, b, c, d]);
        r
    }

    /// The address in dotted decimal form, in ASCII.
    pub fn to_text(&self) -> (text: Vec<u8>)
        ensures
            text@ == dotted_decimal(self@),
    {
        let mut text: Vec<u8> = Vec::new();
        push_decimal(&mut text, self.octets[0]);
        text.push(0x2E);
        push_decimal(&mut text, self.octets[1]);
        text.push(0x2E);
        push_decimal(&mut text, self.octets[2]);
        text.push(0x2E);
        push_decimal(&mut text, self.octets[3]);
        assert(text@ =~= dotted_decimal(self@));
        text
    }

    /// The four bytes of the address.
    pub fn octets(&self) -> (r: [u8; 4])
        ensures
            r@ == self@,
    {
        self.octets
    }
}

/// The payload of a resource record.
#[derive(PartialEq, Eq, Debug, Hash, Clone)]
pub enum DnsRdata {
    /// The address of the record's name (type 1).
    ARecord(Ipv4Addr),
    /// The name that the record's name is an alias for (type 5).
    CnameRecord(DnsName),
}

/// A payload as a mathematical value.
pub enum RdataView {
    /// The four bytes of an address.
    Address(Seq<u8>),
    /// The labels of an aliased name.
    Alias(Seq<Seq<u8>>),
}

impl View for DnsRdata {
    type V = RdataView;

    open spec fn view(&self) -> RdataView {
        match self {
            DnsRdata::ARecord(addr) => RdataView::Address(addr@),
            DnsRdata::CnameRecord(name) => RdataView::Alias(name@),
        }
    }
}

/// The text of a payload: an address in dotted decimal form, a name as a
/// dotted hostname.
pub open spec fn rdata_text(rdata: RdataView) -> Seq<u8> {
    match rdata {
        RdataView::Address(octets) => dotted_decimal(octets),
        RdataView::Alias(labels) => join_dots(labels),
    }
}

impl DnsRdata {
    /// The payload as text for display.
    pub fn to_text(&self) -> (text: Vec<u8>)
        ensures
            text@ == rdata_text(self@),
    {
        match self {
            DnsRdata::ARecord(addr) => addr.to_text(),
            DnsRdata::CnameRecord(name) => name.to_text(),
        }
    }

    /// A payload that stands for the same address or name.
    pub fn duplicate(&self) -> (copy: Self)
        ensures
            copy@ == self@,
    {
        match self {
            DnsRdata::ARecord(addr) => DnsRdata::ARecord(*addr),
            DnsRdata::CnameRecord(name) => DnsRdata::CnameRecord(name.duplicate()),
        }
    }
}

} // verus!
