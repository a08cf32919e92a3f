use mdns::message::{BIT_UNICAST, CLASS_IN, TYPE_A, TYPE_AAAA, TYPE_PTR, TYPE_SRV, TYPE_TXT};
use mdns::txt::txt_strings;
use mdns::{IpAddr, Ipv4Addr, Ipv6Addr, Record, RecordData, Service};

const LOCALHOST: Ipv6Addr = Ipv6Addr(0, 0, 0, 0, 0, 0, 0, 1);

fn printer() -> Service {
    Service {
        instance: "Printer".into(),
        kind: "_ipp._tcp".into(),
        port: 631,
        txt: Service::parse_txt(b"txtvers=1\n\n rp=ipp/print \n"),
        host: "printer.local.".into(),
        addresses: vec![
            IpAddr::V4(Ipv4Addr(10, 0, 0, 5)),
            IpAddr::V6(LOCALHOST),
        ],
    }
}

#[test]
fn a_service_spreads_over_its_records_and_gathers_back() {
    let service = printer();
    assert_eq!(service.full_name(), "Printer._ipp._tcp.local.");
    let records = service.records(120);
    assert_eq!(records.len(), 5);
    assert_eq!(records[0].kind, TYPE_PTR);
    assert_eq!(records[0].class, CLASS_IN, "a shared record does not flush");
    assert_eq!(records[1].class, CLASS_IN | BIT_UNICAST);
    assert_eq!(records[3].name, "printer.local.");
    let back = Service::from_records(&records);
    assert_eq!(back, vec![service.clone()]);
    assert_eq!(service.txt_lines(), b"txtvers=1\nrp=ipp/print\n");
    let none = Service::from_records(&records[..1]);
    assert!(none.is_empty(), "a PTR alone is not a service");
    assert_eq!(
        Service::split_name("Printer._ipp._tcp.local."),
        Some(("Printer".into(), "_ipp._tcp".into()))
    );
    assert!(Service::split_name("printer.local.").is_none(), "a host");
    assert!(Service::split_name("Printer._ipp._tcp.example.").is_none());
    assert!(Service::split_name("._ipp._tcp.local.").is_none());
}

#[test]
fn every_record_says_what_it_should() {
    let records = printer().records(7);
    let full = "Printer._ipp._tcp.local.".to_string();
    let flush = CLASS_IN | BIT_UNICAST;
    let record = |name: &str, kind: u16, class: u16, data: RecordData| Record {
        name: name.to_string(),
        kind,
        class,
        ttl: 7,
        data,
    };
    assert_eq!(
        records,
        vec![
            record("_ipp._tcp.local.", TYPE_PTR, CLASS_IN, RecordData::Ptr(full.clone())),
            record(
                &full,
                TYPE_SRV,
                flush,
                RecordData::Srv {
                    priority: 0,
                    weight: 0,
                    port: 631,
                    target: "printer.local.".into()
                }
            ),
            record(
                &full,
                TYPE_TXT,
                flush,
                RecordData::Txt(vec!["txtvers=1".into(), "rp=ipp/print".into()])
            ),
            record("printer.local.", TYPE_A, flush, RecordData::A(Ipv4Addr(10, 0, 0, 5))),
            record("printer.local.", TYPE_AAAA, flush, RecordData::Aaaa(LOCALHOST)),
        ]
    );
}

#[test]
fn names_split_at_the_first_dot_before_an_underscore() {
    for name in [
        "",
        "local.",
        ".local.",
        "A.local.",
        "A._x.local",
        "A._xlocal.",
        "A.x._tcp.local.",
        "A.local.local.",
        "._x.local.",
    ] {
        assert!(Service::split_name(name).is_none(), "{name}");
    }
    assert_eq!(
        Service::split_name("A._x.local."),
        Some(("A".into(), "_x".into()))
    );
    assert_eq!(
        Service::split_name("A._x..local."),
        Some(("A".into(), "_x.".into()))
    );
    assert_eq!(
        Service::split_name("\u{e9}t\u{e9}._x._udp.local."),
        Some(("\u{e9}t\u{e9}".into(), "_x._udp".into()))
    );
}

#[test]
fn an_instance_with_a_dot_is_not_told_apart() {
    let service = Service { instance: "My.Printer".into(), ..printer() };
    assert_eq!(service.full_name(), "My.Printer._ipp._tcp.local.");
    assert!(Service::split_name(&service.full_name()).is_none());
    assert!(Service::from_records(&service.records(120)).is_empty());
}

#[test]
fn dots_that_a_kind_ends_in_are_lost() {
    let service = Service { kind: "_ipp._tcp..".into(), ..printer() };
    assert_eq!(service.kind_name(), "_ipp._tcp.local.");
    assert_eq!(Service::from_records(&service.records(120)), vec![printer()]);
}

#[test]
fn names_are_compared_without_regard_to_case() {
    let mut records = printer().records(120);
    records[2].name = "PRINTER._ipp._TCP.local.".into();
    records[3].name = "Printer.Local.".into();
    assert_eq!(Service::from_records(&records), vec![printer()]);
    records[2].name = "PR\u{cd}NTER._ipp._TCP.local.".into();
    records[3].name = "other.local.".into();
    let back = Service::from_records(&records);
    assert!(back[0].txt.is_empty());
    assert_eq!(back[0].addresses, vec![IpAddr::V6(LOCALHOST)]);
}

#[test]
fn only_a_txt_record_with_strings_gives_strings() {
    let mut records = printer().records(120);
    records[2].kind = 99;
    assert!(Service::from_records(&records)[0].txt.is_empty());
    records[2].kind = TYPE_TXT;
    records[2].data = RecordData::Other(vec![1]);
    assert!(Service::from_records(&records)[0].txt.is_empty());
}

#[test]
fn services_on_one_host_share_its_addresses_once_per_record() {
    let copier = Service { instance: "Copier".into(), port: 632, ..printer() };
    let mut records = printer().records(120);
    records.extend(copier.records(120));
    let back = Service::from_records(&records);
    assert_eq!(back.len(), 2);
    assert_eq!(back[0].addresses.len(), 4);
    assert_eq!(back[0].txt, printer().txt);
    assert_eq!(back[1].instance, "Copier");
}

#[test]
fn services_apart_gather_back_in_order() {
    let copier = Service {
        instance: "Copier".into(),
        port: 632,
        host: "copier.local.".into(),
        txt: vec!["name=Copier".into()],
        addresses: vec![],
        ..printer()
    };
    let mut records = printer().records(120);
    records.extend(copier.records(120));
    assert_eq!(Service::from_records(&records), vec![printer(), copier]);
}

#[test]
fn txt_strings_are_trimmed_lines() {
    assert_eq!(txt_strings("a\r\n\u{3000}b\t\n\n  \nc\r"), ["a", "b", "c"]);
    assert!(txt_strings("").is_empty());
    assert!(txt_strings("\n\r\n \n").is_empty());
    assert_eq!(txt_strings("a b"), ["a b"]);
}

#[test]
fn what_is_not_utf8_is_replaced() {
    assert_eq!(Service::parse_txt(b"k=\xff\xfe\nok\n"), ["k=\u{fffd}\u{fffd}", "ok"]);
    assert_eq!(Service::parse_txt("n=\u{e9}\n".as_bytes()), ["n=\u{e9}"]);
}

#[test]
fn settled_strings_read_back() {
    let service = Service { txt: vec!["a=1".into(), "b c".into(), "\u{1F600}".into()], ..printer() };
    assert_eq!(service.txt_lines(), "a=1\nb c\n\u{1F600}\n".as_bytes());
    assert_eq!(Service::parse_txt(&service.txt_lines()), service.txt);
    let blank = Service { txt: vec![" a ".into(), "".into()], ..printer() };
    assert_eq!(blank.txt_lines(), b" a \n\n");
    assert_eq!(Service::parse_txt(&blank.txt_lines()), ["a"]);
}
