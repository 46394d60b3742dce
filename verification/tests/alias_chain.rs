use dns_codec::alias_table::{AliasTable, Resolution};
use dns_codec::dns_components::dns_header::DnsHeader;
use dns_codec::dns_components::dns_message::DnsMessage;
use dns_codec::dns_components::dns_name::{DnsLabel, DnsName};
use dns_codec::dns_components::dns_rdata::{DnsRdata, Ipv4Addr};
use dns_codec::dns_components::dns_rr::DnsResourceRecord;

fn name(host: &str) -> DnsName {
    DnsName::from_string(host)
}

fn address(host: &str, addr: [u8; 4]) -> DnsResourceRecord {
    DnsResourceRecord {
        name: name(host),
        rtype: 1,
        class: 1,
        ttl: 30,
        rdlength: 4,
        rdata: DnsRdata::ARecord(Ipv4Addr::new(addr[0], addr[1], addr[2], addr[3])),
        rdata_raw: addr.to_vec(),
    }
}

fn alias(host: &str, target: &str) -> DnsResourceRecord {
    let raw = name(target).to_bytes().unwrap();
    DnsResourceRecord {
        name: name(host),
        rtype: 5,
        class: 1,
        ttl: 30,
        rdlength: raw.len() as u16,
        rdata: DnsRdata::CnameRecord(name(target)),
        rdata_raw: raw,
    }
}

fn response(answers: Vec<DnsResourceRecord>) -> DnsMessage {
    let mut header = DnsHeader::query(0xABBA, 0, false);
    header.qr = true;
    header.ancount = answers.len() as u16;
    DnsMessage { header, questions: vec![], answers, authorities: vec![], additionals: vec![] }
}

fn found(host: &str, addr: [u8; 4]) -> Resolution {
    Resolution::Address {
        name: name(host),
        address: Ipv4Addr::new(addr[0], addr[1], addr[2], addr[3]),
    }
}

fn hop(host: &str, target: &str) -> Resolution {
    Resolution::Alias { name: name(host), target: name(target) }
}

#[test]
fn resolve_single_address() {
    let message = response(vec![address("example.com", [93, 184, 215, 14])]);
    let table = message.get_ip_table();
    let reports = table.resolve(&name("example.com"));
    assert_eq!(reports, vec![found("example.com", [93, 184, 215, 14])]);
    match &reports[0] {
        Resolution::Address { address, .. } => {
            assert_eq!(address.to_text(), b"93.184.215.14".to_vec())
        },
        Resolution::Alias { .. } => panic!("no alias was recorded"),
    }
}

#[test]
fn resolve_decoded_response() {
    let data = vec![
        0xaa, 0xaa, 0x81, 0x80, 0x0, 0x1, 0x0, 0x1, 0x0, 0x0, 0x0, 0x0, 0x7, 0x65, 0x78, 0x61,
        0x6d, 0x70, 0x6c, 0x65, 0x3, 0x63, 0x6f, 0x6d, 0x0, 0x0, 0x1, 0x0, 0x1, 0xc0, 0xc, 0x0,
        0x1, 0x0, 0x1, 0x0, 0x0, 0xb, 0xbb, 0x0, 0x4, 0x5d, 0xb8, 0xd7, 0xe,
    ];
    let table = DnsMessage::parse(&data).unwrap().get_ip_table();
    assert_eq!(
        table.resolve(&name("example.com")),
        vec![found("example.com", [93, 184, 215, 14])]
    );
}

#[test]
fn resolve_follows_alias_chain() {
    let message = response(vec![
        alias("www.example.org", "cdn.example.net"),
        alias("cdn.example.net", "edge.example.net"),
        address("edge.example.net", [192, 0, 2, 7]),
        address("edge.example.net", [192, 0, 2, 8]),
    ]);
    let table = message.get_ip_table();
    assert_eq!(
        table.resolve(&name("www.example.org")),
        vec![
            hop("www.example.org", "cdn.example.net"),
            hop("cdn.example.net", "edge.example.net"),
            found("edge.example.net", [192, 0, 2, 7]),
            found("edge.example.net", [192, 0, 2, 8]),
        ]
    );
    // Starting in the middle of the chain reports the rest of it.
    assert_eq!(
        table.resolve(&name("cdn.example.net")),
        vec![
            hop("cdn.example.net", "edge.example.net"),
            found("edge.example.net", [192, 0, 2, 7]),
            found("edge.example.net", [192, 0, 2, 8]),
        ]
    );
}

#[test]
fn resolve_unknown_name_reports_nothing() {
    let message = response(vec![address("example.com", [1, 2, 3, 4])]);
    let table = message.get_ip_table();
    assert_eq!(table.resolve(&name("example.org")), vec![]);
    assert_eq!(AliasTable::new().resolve(&name("example.com")), vec![]);
    assert_eq!(response(vec![]).get_ip_table().resolve(&name("a")), vec![]);
}

#[test]
fn resolve_alias_to_itself_ends() {
    let message = response(vec![alias("a.test", "a.test")]);
    let table = message.get_ip_table();
    assert_eq!(table.resolve(&name("a.test")), vec![hop("a.test", "a.test")]);
}

#[test]
fn resolve_alias_cycle_ends() {
    let message = response(vec![
        alias("a.test", "b.test"),
        alias("b.test", "c.test"),
        alias("c.test", "a.test"),
        address("c.test", [10, 0, 0, 3]),
    ]);
    let table = message.get_ip_table();
    assert_eq!(
        table.resolve(&name("b.test")),
        vec![
            hop("b.test", "c.test"),
            hop("c.test", "a.test"),
            hop("a.test", "b.test"),
            found("c.test", [10, 0, 0, 3]),
        ]
    );
}

#[test]
fn resolve_visits_each_name_once() {
    // Both aliases of "a" lead to "b": "b" is reported once, after the
    // first of them.
    let message = response(vec![
        alias("a", "b"),
        alias("a", "b"),
        address("b", [10, 0, 0, 1]),
    ]);
    let table = message.get_ip_table();
    assert_eq!(
        table.resolve(&name("a")),
        vec![hop("a", "b"), found("b", [10, 0, 0, 1]), hop("a", "b")]
    );
}

#[test]
fn resolve_reports_a_target_right_after_its_alias() {
    let message = response(vec![
        alias("a", "b"),
        address("a", [10, 0, 0, 1]),
        alias("a", "c"),
        address("c", [10, 0, 0, 3]),
        address("b", [10, 0, 0, 2]),
    ]);
    let table = message.get_ip_table();
    assert_eq!(
        table.resolve(&name("a")),
        vec![
            hop("a", "b"),
            found("b", [10, 0, 0, 2]),
            found("a", [10, 0, 0, 1]),
            hop("a", "c"),
            found("c", [10, 0, 0, 3]),
        ]
    );
}

#[test]
fn table_keeps_the_order_of_values_under_a_name() {
    let message = response(vec![
        address("x", [1, 1, 1, 1]),
        address("y", [2, 2, 2, 2]),
        alias("x", "y"),
        address("x", [3, 3, 3, 3]),
    ]);
    let table = message.get_ip_table();
    assert_eq!(
        table.get(&name("x")),
        Some(&vec![
            DnsRdata::ARecord(Ipv4Addr::new(1, 1, 1, 1)),
            DnsRdata::CnameRecord(name("y")),
            DnsRdata::ARecord(Ipv4Addr::new(3, 3, 3, 3)),
        ])
    );
    assert_eq!(table.get(&name("y")), Some(&vec![DnsRdata::ARecord(Ipv4Addr::new(2, 2, 2, 2))]));
    assert_eq!(table.get(&name("z")), None);
}

#[test]
fn table_ignores_the_other_sections() {
    let mut message = response(vec![address("x", [1, 1, 1, 1])]);
    message.authorities.push(address("x", [9, 9, 9, 9]));
    message.additionals.push(address("y", [8, 8, 8, 8]));
    let table = message.get_ip_table();
    assert_eq!(table.get(&name("x")), Some(&vec![DnsRdata::ARecord(Ipv4Addr::new(1, 1, 1, 1))]));
    assert_eq!(table.get(&name("y")), None);
}

#[test]
fn table_append_adds_after_what_is_there() {
    let table = AliasTable::new();
    assert_eq!(table.get(&name("k")), None);
    let table = table.append(&name("k"), DnsRdata::CnameRecord(name("v")));
    let table = table.append(&name("other"), DnsRdata::ARecord(Ipv4Addr::new(4, 3, 2, 1)));
    let table = table.append(&name("k"), DnsRdata::ARecord(Ipv4Addr::new(1, 2, 3, 4)));
    assert_eq!(
        table.get(&name("k")),
        Some(&vec![
            DnsRdata::CnameRecord(name("v")),
            DnsRdata::ARecord(Ipv4Addr::new(1, 2, 3, 4)),
        ])
    );
}

#[test]
fn names_are_compared_by_their_labels() {
    let a = name("example.com");
    let b = DnsName {
        labels: vec![DnsLabel::new(b"example".to_vec()), DnsLabel::new(b"com".to_vec())],
    };
    assert!(a.same_as(&b));
    assert!(!a.same_as(&name("example.org")));
    assert!(!a.same_as(&name("example")));
    assert!(!a.same_as(&name("example.com.")));
    assert!(!name("Example.com").same_as(&a));
    assert_eq!(a.duplicate(), a);
    assert!(DnsLabel::new(vec![1, 2]).same_as(&DnsLabel::new(vec![1, 2])));
    assert!(!DnsLabel::new(vec![1, 2]).same_as(&DnsLabel::new(vec![1, 3])));
    assert_eq!(DnsLabel::new(vec![7, 8]).duplicate(), DnsLabel::new(vec![7, 8]));
    let rdata = DnsRdata::CnameRecord(name("a.b"));
    assert_eq!(rdata.duplicate(), rdata);
}

#[test]
fn text_of_names_and_addresses() {
    assert_eq!(name("example.com").to_text(), b"example.com".to_vec());
    assert_eq!(name("localhost").to_text(), b"localhost".to_vec());
    assert_eq!(DnsName { labels: vec![] }.to_text(), Vec::<u8>::new());
    assert_eq!(name("a.").to_text(), b"a.".to_vec());
    assert_eq!(Ipv4Addr::new(0, 9, 10, 99).to_text(), b"0.9.10.99".to_vec());
    assert_eq!(Ipv4Addr::new(100, 109, 200, 255).to_text(), b"100.109.200.255".to_vec());
    assert_eq!(Ipv4Addr::new(127, 0, 0, 1).octets(), [127, 0, 0, 1]);
    assert_eq!(DnsRdata::ARecord(Ipv4Addr::new(8, 8, 4, 4)).to_text(), b"8.8.4.4".to_vec());
    assert_eq!(DnsRdata::CnameRecord(name("www.x.y")).to_text(), b"www.x.y".to_vec());
    for host in ["example.com", "a.b.c", "x", "", "a..b", ".", "a."] {
        assert_eq!(DnsName::from_string(host).to_text(), host.as_bytes().to_vec());
    }
    for n in 0u8..=255 {
        let text = Ipv4Addr::new(n, 0, 0, 0).to_text();
        assert_eq!(String::from_utf8(text).unwrap(), format!("{n}.0.0.0"));
    }
}

#[test]
fn resolve_long_chain_and_wide_table() {
    // A chain of 300 aliases that ends in an address, among other names.
    let mut answers = Vec::new();
    for i in 0..300 {
        answers.push(address(&format!("other{i}.test"), [10, 9, 8, 7]));
        answers.push(alias(&format!("n{i}.test"), &format!("n{}.test", i + 1)));
    }
    answers.push(address("n300.test", [10, 0, 0, 1]));
    let table = response(answers).get_ip_table();
    let reports = table.resolve(&name("n0.test"));
    assert_eq!(reports.len(), 301);
    assert_eq!(reports[0], hop("n0.test", "n1.test"));
    assert_eq!(reports[299], hop("n299.test", "n300.test"));
    assert_eq!(reports[300], found("n300.test", [10, 0, 0, 1]));
}

#[test]
fn resolve_alias_to_unknown_name_is_reported_and_ends() {
    let table = response(vec![alias("a", "nowhere"), address("a", [1, 2, 3, 4])]).get_ip_table();
    assert_eq!(table.resolve(&name("a")), vec![hop("a", "nowhere"), found("a", [1, 2, 3, 4])]);
}
