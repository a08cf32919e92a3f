use mdns::message::{encode, CLASS_IN, TYPE_PTR};
use mdns::{Error, Message, Record, RecordData, MAX_MESSAGE};

/// One message with one record, framed as RFC 1035 section 4 says.
fn framed(record: &Record) -> Vec<u8> {
    let mut out = vec![0, 0, 0x84, 0, 0, 0, 0, 1, 0, 0, 0, 0];
    for label in record.name.split_terminator('.') {
        out.push(label.len() as u8);
        out.extend(label.as_bytes());
    }
    out.push(0);
    out.extend(record.kind.to_be_bytes());
    out.extend(record.class.to_be_bytes());
    out.extend(record.ttl.to_be_bytes());
    if let RecordData::Other(bytes) = &record.data {
        out.extend((bytes.len() as u16).to_be_bytes());
        out.extend(bytes);
    }
    out
}

#[test]
fn a_message_over_what_mdns_sends_is_refused() {
    let record = |bytes: usize| Record {
        name: "n.local.".into(),
        kind: 47,
        class: CLASS_IN,
        ttl: 120,
        data: RecordData::Other(vec![0; bytes]),
    };
    let fits = framed(&record(8000));
    assert!(encode(fits).is_ok());
    let over = framed(&record(9000));
    assert_eq!(over.len(), 9031, "DNS itself frames it");
    assert!(encode(over).is_err());
}

#[test]
fn the_largest_message_is_sent_as_it_is() {
    let largest: Vec<u8> = (0..MAX_MESSAGE).map(|i| i as u8).collect();
    assert_eq!(encode(largest.clone()), Ok(largest));
    assert_eq!(encode(vec![0; 9001]), Err(Error::Oversized));
    assert_eq!(encode(vec![]), Ok(vec![]));
}

#[test]
fn a_query_asks_and_a_response_carries() {
    let query = Message::query("_ipp._tcp.local.", TYPE_PTR);
    assert!(!query.is_response());
    assert_eq!(query.id, 0);
    assert_eq!(query.questions.len(), 1);
    assert_eq!(query.questions[0].name, "_ipp._tcp.local.");
    assert_eq!(query.questions[0].kind, 12);
    assert!(query.records().is_empty());
    let record = Record {
        name: "n.local.".into(),
        kind: 47,
        class: CLASS_IN,
        ttl: 120,
        data: RecordData::Other(vec![1, 2]),
    };
    let response = Message::response(9, vec![record.clone()]);
    assert!(response.is_response());
    assert_eq!(response.id, 9);
    assert!(response.questions.is_empty());
    assert_eq!(response.records(), &vec![record]);
}
