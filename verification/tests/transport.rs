use std::time::Duration;

use mdns::message::TYPE_PTR;
use mdns::transport::{arrived, peer_of, split_uri};
use mdns::{
    multicast_group, Error, IpAddr, Ipv4Addr, MdnsTransport, Message, Service, GROUP, TTL,
};

fn node() -> MdnsTransport {
    MdnsTransport::new("127.0.0.1:0").timing_out_after(Duration::from_secs(2))
}

const ADDRESS: &str = "127.0.0.1:40404";

#[test]
fn an_announcement_arrives_as_its_txt_with_the_service_in_the_origin() {
    let far_end = node();
    let address = ADDRESS;
    let (to, sent) = node()
        .as_host("gateway", &[IpAddr::V4(Ipv4Addr(10, 0, 0, 7))])
        .send(
            &format!("mdns://{address}/Gateway._xmip._tcp.local?port=8080"),
            b"txtvers=1\npath=/api\n",
        )
        .expect("announcing");
    assert_eq!(to, address);
    let arrived = far_end.receive_datagram("127.0.0.1:5000", &sent).expect("receiving");
    assert_eq!(arrived.len(), 1);
    assert!(
        arrived[0]
            .origin_uri
            .ends_with("/Gateway._xmip._tcp.local?port=8080&host=gateway.local."),
        "{}",
        arrived[0].origin_uri
    );
    assert_eq!(
        arrived[0].origin_uri,
        "mdns://127.0.0.1:5000/Gateway._xmip._tcp.local?port=8080&host=gateway.local."
    );
    assert_eq!(arrived[0].bytes, b"txtvers=1\npath=/api\n");
    let back = Service::from_records(sent.records());
    assert_eq!(back[0].addresses, vec![IpAddr::V4(Ipv4Addr(10, 0, 0, 7))]);
    assert_eq!(sent.id, 0);
    assert!(sent.records().iter().all(|r| r.ttl == 120));
}

#[test]
fn browsing_asks_first_and_takes_every_service_answered() {
    let far_end = node().browsing("_ipp._tcp").asking("127.0.0.1:40405");
    assert_eq!(far_end.group(), "127.0.0.1:40405");
    let query = far_end.query().expect("asking");
    assert!(!query.is_response());
    assert_eq!(query.questions[0].name, "_ipp._tcp.local.");
    assert_eq!(query.questions[0].kind, TYPE_PTR);
    let mut records = Vec::new();
    for (instance, port) in [("Printer", 631), ("Copier", 632)] {
        let service = Service {
            instance: instance.into(),
            kind: "_ipp._tcp".into(),
            port,
            txt: vec![format!("name={instance}")],
            host: format!("{}.local.", instance.to_lowercase()),
            addresses: vec![IpAddr::V4(Ipv4Addr(10, 0, 0, 5))],
        };
        records.extend(service.records(TTL));
    }
    let response = Message::response(0, records);
    let arrived = far_end.receive_datagram("127.0.0.1:40405", &response).expect("answers");
    assert_eq!(arrived.len(), 2);
    assert!(
        arrived[0]
            .origin_uri
            .ends_with("/Printer._ipp._tcp.local?port=631&host=printer.local.")
    );
    assert_eq!(arrived[0].bytes, b"name=Printer\n");
    assert!(
        arrived[1]
            .origin_uri
            .contains("/Copier._ipp._tcp.local?port=632")
    );
}

#[test]
fn a_query_is_not_a_service_and_a_target_without_one_is_refused() {
    let far_end = node().timing_out_after(Duration::from_millis(300));
    let address = ADDRESS;
    let query = Message::query("_ipp._tcp.local.", TYPE_PTR);
    assert!(far_end.receive_datagram(address, &query).is_none(), "skipped");
    assert!(node().send(address, b"").is_err(), "no service named");
    assert!(node().send(&format!("mdns://{address}/x.local"), b"").is_err());
    assert!(node().send(&format!("mdns://{address}/A._x._tcp.local"), b"").is_err());
    assert!(node().send("http://x/A._x._tcp.local?port=1", b"").is_err());
    let (group, port) = multicast_group(GROUP).expect("multicast");
    assert_eq!(group, Ipv4Addr(224, 0, 0, 251));
    assert_eq!(port, "0.0.0.0:5353");
    assert!(multicast_group("127.0.0.1:5353").is_none());
    assert_eq!(node().name(), "mdns");
}

#[test]
fn a_query_with_the_records_of_a_service_is_still_skipped() {
    let (_, mut sent) = node().send("mdns://h:1/A._x._tcp.local?port=1", b"").expect("sent");
    assert!(node().receive_datagram("p", &sent).is_some());
    sent.response = false;
    assert!(node().receive_datagram("p", &sent).is_none());
    let none = Message::response(0, vec![]);
    assert!(node().receive_datagram("p", &none).is_none());
}

#[test]
fn a_target_is_refused_for_what_it_lacks() {
    let node = node();
    let refused = |target: &str| node.service_at(target).expect_err("refused");
    for target in [ADDRESS, "mdns://h:1", "MDNS://h:1/A._x.local?port=1", "mdns:/h/A._x.local?port=1"] {
        assert_eq!(refused(target), Error::NoService(target.into()));
    }
    assert_eq!(
        refused("mdns://h:1/x.local?port=1"),
        Error::NotInstance("x.local.".into())
    );
    assert_eq!(refused("mdns://h:1/"), Error::NotInstance(".".into()));
    for target in [
        "mdns://h:1/A._x.local",
        "mdns://h:1/A._x.local?",
        "mdns://h:1/A._x.local?port=",
        "mdns://h:1/A._x.local?port=65536",
        "mdns://h:1/A._x.local?port=-1",
        "mdns://h:1/A._x.local?port= 1",
        "mdns://h:1/A._x.local?Port=1",
        "mdns://h:1/A._x.local?&port=x&",
    ] {
        assert_eq!(refused(target), Error::NoPort(target.into()));
    }
}

#[test]
fn a_target_names_its_service() {
    let node = node().as_host("gw", &[IpAddr::V4(Ipv4Addr(10, 0, 0, 7))]);
    let (address, service) = node
        .service_at("mdns://h:1/A._x._tcp.local..?a=b&port=x&port=+0080&port=9")
        .expect("named");
    assert_eq!(address, "h:1");
    assert_eq!(
        service,
        Service {
            instance: "A".into(),
            kind: "_x._tcp".into(),
            port: 80,
            txt: vec![],
            host: "gw.local.".into(),
            addresses: vec![IpAddr::V4(Ipv4Addr(10, 0, 0, 7))],
        }
    );
    let (address, service) = node.service_at("mdns:///a/b._x.local?port=65535").expect("named");
    assert_eq!(address, "");
    assert_eq!((service.instance.as_str(), service.port), ("a/b", 65535));
    let named = node.service_named("A._x.local?port=1", "the target").expect("named");
    assert_eq!(named.port, 1);
    assert_eq!(
        node.service_named("A._x.local", "the target"),
        Err(Error::NoPort("the target".into()))
    );
}

#[test]
fn an_origin_names_its_service_and_its_peer() {
    let service = Service {
        instance: "Printer".into(),
        kind: "_ipp._tcp".into(),
        port: 631,
        txt: vec!["a=1".into()],
        host: "printer.local.".into(),
        addresses: vec![],
    };
    let stream = arrived("[::1]:5353", &service);
    assert_eq!(
        stream.origin_uri,
        "mdns://[::1]:5353/Printer._ipp._tcp.local?port=631&host=printer.local."
    );
    assert_eq!(stream.bytes, b"a=1\n");
    assert_eq!(peer_of(&stream.origin_uri), Ok("[::1]:5353".into()));
    let (peer, named) = node().service_at(&stream.origin_uri).expect("named");
    assert_eq!(peer, "[::1]:5353");
    assert_eq!(
        named,
        Service { txt: vec![], host: "xmip.local.".into(), ..service }
    );
}

#[test]
fn a_uri_splits_at_the_first_slash() {
    assert_eq!(split_uri("mdns://a/b/c"), Some(("a".into(), "b/c".into())));
    assert_eq!(split_uri("mdns:///"), Some(("".into(), "".into())));
    assert_eq!(split_uri("mdns://a"), None);
    assert_eq!(split_uri("a/b"), None);
}

#[test]
fn a_host_is_placed_in_the_domain_once() {
    for (host, placed) in [
        ("gateway", "gateway.local."),
        ("gateway.", "gateway.local."),
        ("gateway.local", "gateway.local."),
        ("gateway.local.", "gateway.local."),
        ("Gateway.LOCAL..", "Gateway.LOCAL."),
        ("local", "local.local."),
        ("", ".local."),
        (".local", ".local."),
    ] {
        let named = node().as_host(host, &[]);
        assert_eq!(named.host(), placed, "{host}");
        assert_eq!(node().as_host(placed, &[]).host(), placed, "{host}");
    }
}

#[test]
fn the_port_is_bound_and_the_group_joined_where_there_is_one() {
    let bound = MdnsTransport::new(GROUP).bind_udp();
    assert_eq!(bound.address, "0.0.0.0:5353");
    assert_eq!(bound.group, Some(Ipv4Addr(224, 0, 0, 251)));
    let bound = node().bind_udp();
    assert_eq!(bound.address, "127.0.0.1:0");
    assert_eq!(bound.group, None);
    let bound = MdnsTransport::new("not an address").bind_udp();
    assert_eq!(bound.address, "not an address");
    assert_eq!(bound.group, None);
}

#[test]
fn multicast_is_224_to_239() {
    assert!(multicast_group("223.255.255.255:1").is_none());
    assert_eq!(
        multicast_group("224.0.0.0:00080"),
        Some((Ipv4Addr(224, 0, 0, 0), "0.0.0.0:80".into()))
    );
    assert_eq!(
        multicast_group("239.255.255.255:65535"),
        Some((Ipv4Addr(239, 255, 255, 255), "0.0.0.0:65535".into()))
    );
    assert!(multicast_group("240.0.0.0:1").is_none());
    for text in [
        "",
        "224.0.0.251",
        "224.0.0.251:",
        "224.0.0.251:65536",
        "224.0.0.251:+1",
        "224.0.0.251:1 ",
        "224.0.0.251:1:1",
        "224.0.0:1",
        "224.0.0.251.1:1",
        "224.0.0.256:1",
        "224.0.0.00:1",
        "224.0.0.01:1",
        "0224.0.0.1:1",
        "224..0.1:1",
        "224.0.0.:1",
        "[ff02::fb]:5353",
    ] {
        assert!(multicast_group(text).is_none(), "{text}");
    }
}

#[test]
fn a_node_keeps_what_it_is_told() {
    let plain = MdnsTransport::new("a:1");
    assert_eq!(plain.bind_udp().address, "a:1");
    assert_eq!(plain.group(), "224.0.0.251:5353");
    assert_eq!(plain.host(), "xmip.local.");
    assert!(plain.addresses().is_empty());
    assert_eq!(plain.timeout(), None);
    assert!(plain.query().is_none());
    let told = plain
        .clone()
        .browsing("_ipp._tcp..")
        .timing_out_after(Duration::from_millis(300))
        .as_host("h", &[IpAddr::V4(Ipv4Addr(1, 2, 3, 4))]);
    assert_eq!(told.query().expect("query").questions[0].name, "_ipp._tcp.local.");
    assert_eq!(told.timeout(), Some(Duration::from_millis(300)));
    assert_eq!(told.addresses(), &vec![IpAddr::V4(Ipv4Addr(1, 2, 3, 4))]);
}

#[test]
fn the_name_browsed_for_is_the_name_of_the_pointer() {
    let told = node().browsing("_x._tcp").query().expect("query");
    let (_, sent) = node().send("mdns://h/A._x._tcp.local?port=1", b"k=v").expect("sent");
    assert_eq!(sent.records()[0].name, told.questions[0].name);
}

#[test]
fn announcing_takes_strings_as_they_are() {
    let (address, sent) =
        node().announce("mdns://h:1/A._x.local?port=2", vec![" raw ".into()]).expect("sent");
    assert_eq!(address, "h:1");
    let back = Service::from_records(sent.records());
    assert_eq!(back[0].txt, [" raw "]);
    assert_eq!(
        node().announce("h:1", vec![]),
        Err(Error::NoService("h:1".into()))
    );
}
