use std::time::Duration;

use mdns::error::Error;
use mdns::hex::{hex, unhex};
use mdns::loopback::{
    chunk_asked, chunk_count, strings_of, take_stream, Taken, Taking, CHUNK, STRING,
};
use mdns::message::{TYPE_ANY, TYPE_PTR};
use mdns::transport::peer_of;
use mdns::{Arrived, MdnsTransport, Message};

#[test]
fn hex_reads_back_and_a_query_names_its_chunk() {
    assert_eq!(hex(&[0, 0x7f, 0xff]), "007fff");
    assert_eq!(unhex("007fff").expect("hex"), [0, 0x7f, 0xff]);
    assert!(unhex("").expect("nothing").is_empty());
    assert!(unhex("abc").is_err(), "odd");
    assert!(unhex("zz").is_err(), "not hex");
    assert_eq!(
        chunk_asked("chunk-12._xmip._udp.local.").expect("asked"),
        12
    );
    assert!(chunk_asked("_ipp._tcp.local.").is_err());
    assert_eq!(
        peer_of("mdns://127.0.0.1:5353/stream._xmip._udp.local?port=1&host=xmip.local.")
            .expect("peer"),
        "127.0.0.1:5353"
    );
    assert!(peer_of("mdns:///x").is_err());
    assert!(peer_of("http://127.0.0.1:5353/x").is_err());
}

fn node() -> MdnsTransport {
    MdnsTransport::loopback(Duration::from_secs(2))
}

fn payload(len: usize) -> Vec<u8> {
    (0..len).map(|i| (i * 7 + i / 256) as u8).collect()
}

/// Both ends in one place: what the browser takes, and how many queries the
/// responder answered until it was done.
fn exchange(node: &MdnsTransport, payload: &[u8]) -> (Arrived, usize) {
    let peer = "127.0.0.1:4000";
    let announced = node.receive_datagram(peer, &node.announce_stream()).expect("announced");
    let mut taking = Taking::begin(&announced).expect("begun");
    assert_eq!(taking.responder(), peer);
    let mut answered = 0;
    loop {
        let query = taking.query();
        let (answer, done) = node.answer(payload, &query).expect("answered");
        answered += 1;
        let found = node.receive_datagram(peer, &answer).expect("found");
        match taking.take(&found).expect("taken") {
            Taken::More(more) => {
                assert!(!done);
                taking = more;
            }
            Taken::Whole(arrived) => {
                assert!(done);
                return (arrived, answered);
            }
        }
    }
}

#[test]
fn a_stream_arrives_whole() {
    for len in [0, 1, 124, 125, 126, 3999, 4000, 4001, 8000, 20_001] {
        let sent = payload(len);
        let (arrived, answered) = exchange(&node(), &sent);
        assert_eq!(arrived.bytes, sent, "{len}");
        assert_eq!(answered, len.div_ceil(4000) + 1);
        assert_eq!(
            arrived.origin_uri,
            "mdns://127.0.0.1:4000/stream._xmip._udp.local?port=1&host=xmip.local."
        );
    }
}

#[test]
fn every_byte_reads_back_in_hex() {
    let all: Vec<u8> = (0..=255).collect();
    let text = hex(&all);
    assert_eq!(text.len(), 512);
    assert_eq!(&text[..8], "00010203");
    assert_eq!(unhex(&text), Ok(all));
    assert_eq!(unhex("aBCd"), Ok(vec![0xab, 0xcd]));
    assert_eq!(hex(&[]), "");
}

#[test]
fn hex_pairs_read_as_numbers_in_base_sixteen() {
    for a in 0u8..128 {
        for b in 0u8..128 {
            let pair = String::from_utf8(vec![a, b]).expect("ascii");
            let digits = a.is_ascii_hexdigit() && b.is_ascii_hexdigit();
            let expected = match u8::from_str_radix(&pair, 16) {
                Ok(n) if digits => Ok(vec![n]),
                _ => Err(Error::NotHex(pair.clone())),
            };
            assert_eq!(unhex(&pair), expected, "{pair:?}");
        }
    }
    assert_eq!(unhex("+f"), Err(Error::NotHex("+f".into())));
    assert_eq!(unhex("00+f"), Err(Error::NotHex("00+f".into())));
    assert_eq!(unhex("\u{e9}"), Err(Error::NotHex("\u{e9}".into())));
    assert_eq!(unhex("a\u{e9}"), Err(Error::OddHex("a\u{e9}".into())));
    assert_eq!(unhex("a\u{e9}b"), Err(Error::NotHex("a\u{e9}b".into())));
    assert_eq!(unhex("00zz"), Err(Error::NotHex("00zz".into())));
    assert_eq!(unhex("0"), Err(Error::OddHex("0".into())));
}

#[test]
fn a_chunk_is_asked_for_by_its_number() {
    for n in [0usize, 9, 10, 99, 100, 12345, usize::MAX] {
        assert_eq!(chunk_asked(&format!("chunk-{n}._xmip._udp.local.")), Ok(n));
    }
    assert_eq!(chunk_asked("chunk-+007"), Ok(7));
    for name in [
        "",
        "chunk-",
        "chunk-.",
        "chunk-1x.",
        "chunk--1.",
        "Chunk-1.",
        "chunk-18446744073709551616.",
    ] {
        assert_eq!(chunk_asked(name), Err(Error::NotChunk(name.into())), "{name}");
    }
}

#[test]
fn an_answer_echoes_the_query_and_carries_its_chunk() {
    let sent = payload(CHUNK + 1);
    let mut query = Message::query("chunk-1._xmip._udp.local.", TYPE_ANY);
    query.id = 77;
    let (answer, done) = node().answer(&sent, &query).expect("answer");
    assert!(!done);
    assert_eq!(answer.id, 77);
    let found = node().receive_datagram("p", &answer).expect("found");
    assert_eq!(found.len(), 1);
    assert_eq!(
        found[0].origin_uri,
        "mdns://p/chunk-1._xmip._udp.local?port=1&host=xmip.local."
    );
    assert_eq!(found[0].bytes, format!("{}\n", hex(&sent[CHUNK..])).as_bytes());
    let past = Message::query("chunk-2._xmip._udp.local.", TYPE_ANY);
    let (answer, done) = node().answer(&sent, &past).expect("answer");
    assert!(done);
    assert!(node().receive_datagram("p", &answer).expect("found")[0].bytes.is_empty());
    let far = Message::query(&format!("chunk-{}.", usize::MAX), TYPE_ANY);
    assert!(node().answer(&sent, &far).expect("answer").1);
}

#[test]
fn a_query_for_something_else_is_refused() {
    let other = Message::query("_ipp._tcp.local.", TYPE_PTR);
    assert_eq!(
        node().answer(b"x", &other),
        Err(Error::NotChunk("_ipp._tcp.local.".into()))
    );
    let nothing = Message::response(0, vec![]);
    assert_eq!(node().answer(b"x", &nothing), Err(Error::NotChunk("".into())));
}

#[test]
fn a_chunk_fits_its_strings() {
    assert_eq!((STRING, CHUNK), (125, 4000));
    let sent = payload(2 * CHUNK + 130);
    assert_eq!(chunk_count(&sent), 3);
    assert_eq!(chunk_count(&[]), 0);
    assert_eq!(chunk_count(&sent[..CHUNK]), 1);
    assert_eq!(strings_of(&sent, 0).len(), 32);
    assert!(strings_of(&sent, 1).iter().all(|s| s.len() == 250));
    let last = strings_of(&sent, 2);
    assert_eq!(last, [hex(&sent[8000..8125]), hex(&sent[8125..])]);
    assert!(strings_of(&sent, 3).is_empty());
    assert!(strings_of(&sent, usize::MAX).is_empty());
}

fn arrived(bytes: &[u8]) -> Arrived {
    Arrived { origin_uri: "mdns://p/x".into(), bytes: bytes.to_vec() }
}

fn begun() -> Taking {
    Taking::begin(&vec![arrived(b"")]).expect("begun")
}

#[test]
fn taking_begins_with_an_announcement_that_names_its_peer() {
    assert_eq!(Taking::begin(&vec![]).err(), Some(Error::Unannounced));
    let nobody = Arrived { origin_uri: "mdns:///x".into(), bytes: vec![] };
    assert_eq!(
        Taking::begin(&vec![nobody]).err(),
        Some(Error::NoPeer("mdns:///x".into()))
    );
    assert_eq!(begun().responder(), "p");
    let query = begun().query();
    assert_eq!(query.questions[0].name, "chunk-0._xmip._udp.local.");
    assert_eq!(query.questions[0].kind, 255);
}

#[test]
fn taking_goes_on_until_nothing_comes() {
    let taken = begun().take(&vec![arrived(b"0001\n02\n"), arrived(b"03")]).expect("taken");
    let more = match taken {
        Taken::More(more) => more,
        Taken::Whole(_) => panic!("not yet"),
    };
    assert_eq!(more.query().questions[0].name, "chunk-1._xmip._udp.local.");
    let taken = more.take(&vec![arrived(b"04\n"), arrived(b""), arrived(b"zz")]).expect("taken");
    match taken {
        Taken::Whole(whole) => {
            assert_eq!(whole.bytes, [0, 1, 2, 3, 4]);
            assert_eq!(whole.origin_uri, "mdns://p/x");
        }
        Taken::More(_) => panic!("whole"),
    }
}

#[test]
fn what_is_not_hex_text_is_not_taken() {
    assert_eq!(begun().take(&vec![arrived(b"\xff")]).err(), Some(Error::NotText));
    assert_eq!(
        begun().take(&vec![arrived(b"00\nabc\nzz\n")]).err(),
        Some(Error::OddHex("abc".into()))
    );
    assert_eq!(take_stream(b"00\nzz\nabc\n"), Err(Error::NotHex("zz".into())));
    assert_eq!(take_stream(b"00\n+f\n"), Err(Error::NotHex("+f".into())));
    assert_eq!(begun().take(&vec![arrived(b"+f\n")]).err(), Some(Error::NotHex("+f".into())));
    assert_eq!(take_stream(b"00\r\n\n01"), Ok(vec![0, 1]));
    assert_eq!(take_stream(b""), Ok(vec![]));
}

#[test]
fn the_loopback_browser_is_local_and_waits() {
    let node = node();
    assert_eq!(node.bind_udp().address, "127.0.0.1:0");
    assert_eq!(node.timeout(), Some(Duration::from_secs(2)));
    let service = node.service("stream", vec!["a".into()]);
    assert_eq!(service.full_name(), "stream._xmip._udp.local.");
    assert_eq!((service.port, service.txt), (1, vec!["a".to_string()]));
}
