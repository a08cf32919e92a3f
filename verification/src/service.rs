//! RFC 6763: one service instance as the four records DNS-SD spreads it
//! over, and back. `<instance>.<kind>.local.` is the SRV and TXT owner;
//! `<kind>.local.` has a PTR to it; the SRV names a host that A and AAAA
//! records place.

use vstd::prelude::*;
use vstd::slice::slice_subrange;
use vstd::utf8::{decode_utf8, encode_utf8, valid_utf8};

use crate::address::IpAddr;
use crate::message;
use crate::message::{
    DataView, Record, RecordData, RecordView, BIT_UNICAST, CLASS_IN, TYPE_A, TYPE_AAAA, TYPE_PTR,
    TYPE_SRV, TYPE_TXT,
};
use crate::text;
use crate::txt;

verus! {

/// The domain every mDNS name ends in.
pub const DOMAIN: &'static str = "local.";

/// One service instance: `Printer` of kind `_ipp._tcp` on port 631 at
/// `printer.local.`, with its TXT strings.
#[derive(Clone, Debug, PartialEq, Eq)]
pub struct Service {
    pub instance: String,
    pub kind: String,
    pub port: u16,
    pub txt: Vec<String>,
    pub host: String,
    pub addresses: Vec<IpAddr>,
}

/// A [`Service`] with what its text spells.
#[verifier::ext_equal]
pub struct ServiceView {
    pub instance: Seq<char>,
    pub kind: Seq<char>,
    pub port: u16,
    pub txt: Seq<Seq<char>>,
    pub host: Seq<char>,
    pub addresses: Seq<IpAddr>,
}

impl View for Service {
    type V = ServiceView;

    open spec fn view(&self) -> ServiceView {
        ServiceView {
            instance: self.instance@,
            kind: self.kind@,
            port: self.port,
            txt: text::spellings(self.txt@),
            host: self.host@,
            addresses: self.addresses@,
        }
    }
}

/// Each of `services` with what its text spells.
pub open spec fn services_view(services: Seq<Service>) -> Seq<ServiceView> {
    services.map_values(|s: Service| s@)
}

// ----------------------------------------------------------------- names

/// `<kind>.local.`.
pub open spec fn kind_name(kind: Seq<char>) -> Seq<char> {
    text::undotted(kind).push('.') + DOMAIN@
}

/// `<instance>.<kind>.local.`.
pub open spec fn full_name(instance: Seq<char>, kind: Seq<char>) -> Seq<char> {
    instance.push('.') + kind_name(kind)
}

/// The instance and kind in `<instance>.<kind>.local.`, where `name` is one.
pub open spec fn name_parts(name: Seq<char>) -> Option<(Seq<char>, Seq<char>)> {
    let stem = name.take(name.len() - DOMAIN@.len());
    let base = stem.drop_last();
    let at = text::first_at(base, '.') as int;
    let instance = base.take(at);
    let kind = base.skip(at + 1);
    if text::ends(name, DOMAIN@) && stem.len() > 0 && stem.last() == '.' && at < base.len()
        && instance.len() > 0 && kind.len() > 0 && kind[0] == '_' {
        Some((instance, kind))
    } else {
        None
    }
}

// --------------------------------------------------------------- records

/// The record placing `host` at `address`.
pub open spec fn address_record(host: Seq<char>, ttl: u32, address: IpAddr) -> RecordView {
    match address {
        IpAddr::V4(v4) => RecordView {
            name: host,
            kind: TYPE_A,
            class: CLASS_IN | BIT_UNICAST,
            ttl,
            data: DataView::A(v4),
        },
        IpAddr::V6(v6) => RecordView {
            name: host,
            kind: TYPE_AAAA,
            class: CLASS_IN | BIT_UNICAST,
            ttl,
            data: DataView::Aaaa(v6),
        },
    }
}

impl ServiceView {
    /// `<instance>.<kind>.local.`.
    pub open spec fn full_name(self) -> Seq<char> {
        full_name(self.instance, self.kind)
    }

    /// The record set announcing this service: the shared PTR, which flushes
    /// no cache, then the SRV, the TXT and one record per address, which
    /// replace what a cache held.
    pub open spec fn records(self, ttl: u32) -> Seq<RecordView> {
        seq![
            RecordView {
                name: kind_name(self.kind),
                kind: TYPE_PTR,
                class: CLASS_IN,
                ttl,
                data: DataView::Ptr(self.full_name()),
            },
            RecordView {
                name: self.full_name(),
                kind: TYPE_SRV,
                class: CLASS_IN | BIT_UNICAST,
                ttl,
                data: DataView::Srv { priority: 0, weight: 0, port: self.port, target: self.host },
            },
            RecordView {
                name: self.full_name(),
                kind: TYPE_TXT,
                class: CLASS_IN | BIT_UNICAST,
                ttl,
                data: DataView::Txt(self.txt),
            },
        ] + self.addresses.map_values(|a: IpAddr| address_record(self.host, ttl, a))
    }
}

/// The TXT strings that `record` gives to `name`.
pub open spec fn txt_given(record: RecordView, name: Seq<char>) -> Seq<Seq<char>> {
    if record.kind == TYPE_TXT && text::same_name(record.name, name) && record.data is Txt {
        record.data->Txt_0
    } else {
        seq![]
    }
}

/// The TXT strings that `records` give to `name`, in order.
pub open spec fn txt_under(records: Seq<RecordView>, name: Seq<char>) -> Seq<Seq<char>>
    decreases records.len(),
{
    if records.len() == 0 {
        seq![]
    } else {
        txt_under(records.drop_last(), name) + txt_given(records.last(), name)
    }
}

/// The address that `record` gives to `host`.
pub open spec fn address_given(record: RecordView, host: Seq<char>) -> Seq<IpAddr> {
    if text::same_name(record.name, host) {
        match record.data {
            DataView::A(v4) => seq![IpAddr::V4(v4)],
            DataView::Aaaa(v6) => seq![IpAddr::V6(v6)],
            _ => seq![],
        }
    } else {
        seq![]
    }
}

/// The addresses that `records` give to `host`, in order.
pub open spec fn addresses_at(records: Seq<RecordView>, host: Seq<char>) -> Seq<IpAddr>
    decreases records.len(),
{
    if records.len() == 0 {
        seq![]
    } else {
        addresses_at(records.drop_last(), host) + address_given(records.last(), host)
    }
}

/// The service that `record` is the SRV record of, with what `records` say
/// of it: one where its owner is an instance name, else none.
pub open spec fn service_given(record: RecordView, records: Seq<RecordView>) -> Seq<ServiceView> {
    match (record.data, name_parts(record.name)) {
        (DataView::Srv { port, target, .. }, Some((instance, kind))) => seq![
            ServiceView {
                instance,
                kind,
                port,
                txt: txt_under(records, record.name),
                host: target,
                addresses: addresses_at(records, target),
            },
        ],
        _ => seq![],
    }
}

/// The services that `some` are the SRV records of, with what all `records`
/// say of them.
pub open spec fn services_given(
    some: Seq<RecordView>,
    records: Seq<RecordView>,
) -> Seq<ServiceView>
    decreases some.len(),
{
    if some.len() == 0 {
        seq![]
    } else {
        services_given(some.drop_last(), records) + service_given(some.last(), records)
    }
}

/// Every service `records` describe.
pub open spec fn services_in(records: Seq<RecordView>) -> Seq<ServiceView> {
    services_given(records, records)
}

// ------------------------------------------------------------- functions

/// A record of the Internet class that replaces what a cache held.
fn unique_record(name: &str, kind: u16, ttl: u32, data: RecordData) -> (record: Record)
    ensures
        record@ == (RecordView {
            name: name@,
            kind,
            class: CLASS_IN | BIT_UNICAST,
            ttl,
            data: data@,
        }),
{
    Record { name: name.to_owned(), kind, class: CLASS_IN | BIT_UNICAST, ttl, data }
}

/// The TXT strings that `records` give to `name`, in order.
fn gather_txt(records: &[Record], name: &str) -> (txt: Vec<String>)
    ensures
        text::spellings(txt@) == txt_under(message::records_view(records@), name@),
{
    let ghost all = message::records_view(records@);
    let mut txt: Vec<String> = Vec::new();
    assert(text::spellings(txt@) =~= txt_under(all.take(0), name@));
    for at in 0..records.len()
        invariant
            all == message::records_view(records@),
            text::spellings(txt@) == txt_under(all.take(at as int), name@),
    {
        let record = &records[at];
        let ghost before = text::spellings(txt@);
        proof {
            assert(all.take(at + 1).drop_last() =~= all.take(at as int));
            assert(all.take(at + 1).last() == record@);
        }
        if record.kind == TYPE_TXT && text::is_same_name(record.name.as_str(), name) {
            if let RecordData::Txt(strings) = &record.data {
                for i in 0..strings.len()
                    invariant
                        text::spellings(txt@) == before + text::spellings(strings@).take(i as int),
                {
                    let ghost sofar = text::spellings(txt@);
                    txt.push(strings[i].clone());
                    assert(text::spellings(txt@) =~= sofar.push(strings@[i as int]@));
                    assert(text::spellings(txt@) =~= before + text::spellings(strings@).take(i + 1));
                }
                assert(text::spellings(strings@).take(strings.len() as int) =~= text::spellings(
                    strings@,
                ));
            }
        }
        assert(text::spellings(txt@) =~= before + txt_given(record@, name@));
    }
    assert(all.take(records.len() as int) =~= all);
    txt
}

/// The addresses that `records` give to `host`, in order.
fn gather_addresses(records: &[Record], host: &str) -> (addresses: Vec<IpAddr>)
    ensures
        addresses@ == addresses_at(message::records_view(records@), host@),
{
    let ghost all = message::records_view(records@);
    let mut addresses: Vec<IpAddr> = Vec::new();
    assert(addresses@ =~= addresses_at(all.take(0), host@));
    for at in 0..records.len()
        invariant
            all == message::records_view(records@),
            addresses@ == addresses_at(all.take(at as int), host@),
    {
        let record = &records[at];
        let ghost before = addresses@;
        proof {
            assert(all.take(at + 1).drop_last() =~= all.take(at as int));
            assert(all.take(at + 1).last() == record@);
        }
        if text::is_same_name(record.name.as_str(), host) {
            match &record.data {
                RecordData::A(v4) => addresses.push(IpAddr::V4(*v4)),
                RecordData::Aaaa(v6) => addresses.push(IpAddr::V6(*v6)),
                _ => {},
            }
        }
        assert(addresses@ =~= before + address_given(record@, host@));
    }
    assert(all.take(records.len() as int) =~= all);
    addresses
}

impl Service {
    /// `<instance>.<kind>.local.`.
    #[must_use]
    pub fn full_name(&self) -> (name: String)
        ensures
            name@ == full_name(self.instance@, self.kind@),
    {
        let mut name = self.instance.clone();
        name.push('.');
        name.append(self.kind_name().as_str());
        name
    }

    /// `<kind>.local.`.
    #[must_use]
    pub fn kind_name(&self) -> (name: String)
        ensures
            name@ == kind_name(self.kind@),
    {
        let kind = text::chars_of(self.kind.as_str());
        let mut name = text::spelled(text::without_dots(kind.as_slice()));
        name.push('.');
        name.append(DOMAIN);
        name
    }

    /// The instance and kind in `<instance>.<kind>.local.`, where the name
    /// is one: the instance is the first label, the kind what follows it up
    /// to the domain. An instance with a dot in it is not told apart here.
    #[must_use]
    pub fn split_name(name: &str) -> (parts: Option<(String, String)>)
        ensures
            parts is Some <==> name_parts(name@) is Some,
            parts matches Some((instance, kind)) ==> name_parts(name@) == Some(
                (instance@, kind@),
            ),
    {
        let chars = text::chars_of(name);
        let stem = match text::before_suffix(chars.as_slice(), DOMAIN) {
            Some(stem) => stem,
            None => return None,
        };
        if stem.len() == 0 || stem[stem.len() - 1] != '.' {
            return None;
        }
        let base = slice_subrange(stem, 0, stem.len() - 1);
        assert(base@ =~= stem@.drop_last());
        let at = text::find(base, '.');
        if at >= base.len() {
            return None;
        }
        let instance = slice_subrange(base, 0, at);
        let kind = slice_subrange(base, at + 1, base.len());
        assert(instance@ =~= base@.take(at as int));
        assert(kind@ =~= base@.skip(at + 1));
        if instance.len() > 0 && kind.len() > 0 && kind[0] == '_' {
            Some((text::spelled(instance), text::spelled(kind)))
        } else {
            None
        }
    }

    /// The record set announcing this service, each record living `ttl`
    /// seconds and, but for the shared PTR, replacing what a cache held.
    #[must_use]
    pub fn records(&self, ttl: u32) -> (records: Vec<Record>)
        ensures
            message::records_view(records@) == self@.records(ttl),
    {
        let full = self.full_name();
        let mut records: Vec<Record> = Vec::new();
        records.push(
            Record {
                name: self.kind_name(),
                kind: TYPE_PTR,
                class: CLASS_IN,
                ttl,
                data: RecordData::Ptr(full.clone()),
            },
        );
        records.push(
            unique_record(
                full.as_str(),
                TYPE_SRV,
                ttl,
                RecordData::Srv {
                    priority: 0,
                    weight: 0,
                    port: self.port,
                    target: self.host.clone(),
                },
            ),
        );
        records.push(
            unique_record(
                full.as_str(),
                TYPE_TXT,
                ttl,
                RecordData::Txt(text::copies(&self.txt)),
            ),
        );
        let ghost placed = self@.addresses.map_values(
            |a: IpAddr| address_record(self@.host, ttl, a),
        );
        let ghost first = message::records_view(records@);
        assert(first + placed =~= self@.records(ttl));
        for at in 0..self.addresses.len()
            invariant
                placed == self@.addresses.map_values(
                    |a: IpAddr| address_record(self@.host, ttl, a),
                ),
                message::records_view(records@) == first + placed.take(at as int),
        {
            let ghost before = message::records_view(records@);
            let record = match self.addresses[at] {
                IpAddr::V4(v4) => unique_record(
                    self.host.as_str(),
                    TYPE_A,
                    ttl,
                    RecordData::A(v4),
                ),
                IpAddr::V6(v6) => unique_record(
                    self.host.as_str(),
                    TYPE_AAAA,
                    ttl,
                    RecordData::Aaaa(v6),
                ),
            };
            records.push(record);
            assert(message::records_view(records@) =~= before.push(record@));
            assert(message::records_view(records@) =~= first + placed.take(at + 1));
        }
        assert(placed.take(self.addresses.len() as int) =~= placed);
        records
    }

    /// Every service `records` describe: one per SRV record whose owner is
    /// an instance name, with the TXT strings and addresses that go with it.
    #[must_use]
    pub fn from_records(records: &[Record]) -> (services: Vec<Service>)
        ensures
            services_view(services@) == services_in(message::records_view(records@)),
    {
        let ghost all = message::records_view(records@);
        let mut services: Vec<Service> = Vec::new();
        assert(services_view(services@) =~= services_given(all.take(0), all));
        for at in 0..records.len()
            invariant
                all == message::records_view(records@),
                services_view(services@) == services_given(all.take(at as int), all),
        {
            let record = &records[at];
            let ghost before = services_view(services@);
            proof {
                assert(all.take(at + 1).drop_last() =~= all.take(at as int));
                assert(all.take(at + 1).last() == record@);
            }
            if let RecordData::Srv { port, target, .. } = &record.data {
                if let Some((instance, kind)) = Self::split_name(record.name.as_str()) {
                    let txt = gather_txt(records, record.name.as_str());
                    let addresses = gather_addresses(records, target.as_str());
                    let service = Service {
                        instance,
                        kind,
                        port: *port,
                        txt,
                        host: target.clone(),
                        addresses,
                    };
                    services.push(service);
                    assert(services_view(services@) =~= before.push(service@));
                }
            }
            assert(services_view(services@) =~= before + service_given(record@, all));
        }
        assert(all.take(records.len() as int) =~= all);
        services
    }

    /// The TXT strings as the Stream: one `key=value` line each.
    #[must_use]
    pub fn txt_lines(&self) -> (bytes: Vec<u8>)
        ensures
            bytes@ == encode_utf8(txt::lined(self@.txt)),
    {
        let ghost strings = text::spellings(self.txt@);
        let mut out = String::new();
        assert(out@ =~= txt::lined(strings.take(0)));
        for at in 0..self.txt.len()
            invariant
                strings == text::spellings(self.txt@),
                out@ == txt::lined(strings.take(at as int)),
        {
            out.append(self.txt[at].as_str());
            out.push('\n');
            assert(strings.take(at + 1).drop_last() =~= strings.take(at as int));
            assert(out@ =~= txt::lined(strings.take(at + 1)));
        }
        assert(strings.take(self.txt.len() as int) =~= strings);
        out.as_str().as_bytes_vec()
    }

    /// The TXT strings a Stream of lines names; blank lines skipped.
    #[must_use]
    pub fn parse_txt(bytes: &[u8]) -> (txt: Vec<String>)
        ensures
            text::spellings(txt@) == txt::txt_named(txt::lossy_text(bytes@)),
            valid_utf8(bytes@) ==> text::spellings(txt@) == txt::txt_named(decode_utf8(bytes@)),
    {
        txt::txt_strings(txt::lossy(bytes).as_str())
    }
}

// ------------------------------------------------- laws of names and records

impl ServiceView {
    /// Whether the names of this service's records tell its instance and
    /// kind apart: the instance is one label, and the kind begins with an
    /// underscore.
    pub open spec fn tellable(self) -> bool {
        &&& self.instance.len() > 0
        &&& !self.instance.contains('.')
        &&& self.kind.len() > 0
        &&& self.kind[0] == '_'
    }

    /// This service with its kind as the names of its records give it,
    /// without dots at its end.
    pub open spec fn told(self) -> ServiceView {
        ServiceView { kind: text::undotted(self.kind), ..self }
    }
}

/// A name reads back: the name of a service splits into its instance and its
/// kind, where its instance is one label and its kind begins with an
/// underscore. Dots that the kind ends in are lost.
pub proof fn law_name_reads_back(service: ServiceView)
    requires
        service.tellable(),
    ensures
        name_parts(service.full_name()) == Some((service.instance, text::undotted(service.kind))),
{
    reveal_strlit("local.");
    let instance = service.instance;
    let kind = text::undotted(service.kind);
    text::lemma_undotted(service.kind);
    let name = service.full_name();
    let base = instance.push('.') + kind;
    assert(name =~= base.push('.') + DOMAIN@);
    assert(name.take(name.len() - DOMAIN@.len()) =~= base.push('.'));
    assert(name.skip(name.len() - DOMAIN@.len()) =~= DOMAIN@);
    assert(base.push('.').drop_last() =~= base);
    assert forall|i: int| 0 <= i < instance.len() implies base[i] != '.' by {
        assert(base[i] == instance[i]);
        assert(instance.contains(instance[i]));
    }
    text::lemma_first_at_is(base, '.', instance.len() as int);
    assert(base.take(instance.len() as int) =~= instance);
    assert(base.skip(instance.len() as int + 1) =~= kind);
}

proof fn lemma_txt_under_joined(a: Seq<RecordView>, b: Seq<RecordView>, name: Seq<char>)
    ensures
        txt_under(a + b, name) == txt_under(a, name) + txt_under(b, name),
    decreases b.len(),
{
    if b.len() == 0 {
        assert(a + b =~= a);
        assert(txt_under(a, name) + txt_under(b, name) =~= txt_under(a, name));
    } else {
        assert((a + b).drop_last() =~= a + b.drop_last());
        lemma_txt_under_joined(a, b.drop_last(), name);
        assert(txt_under(a + b, name) =~= txt_under(a, name) + txt_under(b, name));
    }
}

proof fn lemma_addresses_at_joined(a: Seq<RecordView>, b: Seq<RecordView>, host: Seq<char>)
    ensures
        addresses_at(a + b, host) == addresses_at(a, host) + addresses_at(b, host),
    decreases b.len(),
{
    if b.len() == 0 {
        assert(a + b =~= a);
        assert(addresses_at(a, host) + addresses_at(b, host) =~= addresses_at(a, host));
    } else {
        assert((a + b).drop_last() =~= a + b.drop_last());
        lemma_addresses_at_joined(a, b.drop_last(), host);
        assert(addresses_at(a + b, host) =~= addresses_at(a, host) + addresses_at(b, host));
    }
}

proof fn lemma_services_given_joined(
    a: Seq<RecordView>,
    b: Seq<RecordView>,
    all: Seq<RecordView>,
)
    ensures
        services_given(a + b, all) == services_given(a, all) + services_given(b, all),
    decreases b.len(),
{
    if b.len() == 0 {
        assert(a + b =~= a);
        assert(services_given(a, all) + services_given(b, all) =~= services_given(a, all));
    } else {
        assert((a + b).drop_last() =~= a + b.drop_last());
        lemma_services_given_joined(a, b.drop_last(), all);
        assert(services_given(a + b, all) =~= services_given(a, all) + services_given(b, all));
    }
}

/// The address records of a host give that host its addresses, give nothing
/// to another, and carry neither TXT strings nor services.
proof fn lemma_placed(
    addresses: Seq<IpAddr>,
    host: Seq<char>,
    ttl: u32,
    other: Seq<char>,
    all: Seq<RecordView>,
)
    ensures
        ({
            let placed = addresses.map_values(|a: IpAddr| address_record(host, ttl, a));
            &&& addresses_at(placed, other) == if text::same_name(host, other) {
                addresses
            } else {
                seq![]
            }
            &&& txt_under(placed, other) == Seq::<Seq<char>>::empty()
            &&& services_given(placed, all) == Seq::<ServiceView>::empty()
        }),
    decreases addresses.len(),
{
    let placed = addresses.map_values(|a: IpAddr| address_record(host, ttl, a));
    if addresses.len() > 0 {
        let fewer = addresses.drop_last();
        lemma_placed(fewer, host, ttl, other, all);
        assert(placed.drop_last() =~= fewer.map_values(
            |a: IpAddr| address_record(host, ttl, a),
        ));
        assert(placed.last() == address_record(host, ttl, addresses.last()));
        assert(fewer.push(addresses.last()) =~= addresses);
        if text::same_name(host, other) {
            assert(addresses_at(placed, other) =~= addresses);
        } else {
            assert(addresses_at(placed, other) =~= seq![]);
        }
        assert(txt_under(placed, other) =~= Seq::<Seq<char>>::empty());
        assert(services_given(placed, all) =~= Seq::<ServiceView>::empty());
    } else {
        assert(addresses_at(placed, other) =~= addresses);
    }
}

/// What the records of one service give to a name and to a host, and the one
/// service they are the SRV record of.
proof fn lemma_one_service(
    service: ServiceView,
    ttl: u32,
    name: Seq<char>,
    host: Seq<char>,
    all: Seq<RecordView>,
)
    requires
        service.tellable(),
    ensures
        txt_under(service.records(ttl), name) == if text::same_name(service.full_name(), name) {
            service.txt
        } else {
            seq![]
        },
        addresses_at(service.records(ttl), host) == if text::same_name(service.host, host) {
            service.addresses
        } else {
            seq![]
        },
        services_given(service.records(ttl), all) == seq![
            ServiceView {
                txt: txt_under(all, service.full_name()),
                addresses: addresses_at(all, service.host),
                ..service.told()
            },
        ],
{
    let placed = service.addresses.map_values(|a: IpAddr| address_record(service.host, ttl, a));
    let records = service.records(ttl);
    let three = records.take(3);
    assert(records =~= three + placed);
    lemma_placed(service.addresses, service.host, ttl, name, all);
    lemma_placed(service.addresses, service.host, ttl, host, all);
    lemma_txt_under_joined(three, placed, name);
    lemma_addresses_at_joined(three, placed, host);
    lemma_services_given_joined(three, placed, all);
    law_name_reads_back(service);
    let two = three.drop_last();
    let one = two.drop_last();
    assert(one.drop_last() =~= seq![]);
    assert(one.last() == records[0] && two.last() == records[1] && three.last() == records[2]);
    reveal_with_fuel(txt_under, 4);
    reveal_with_fuel(addresses_at, 4);
    reveal_with_fuel(services_given, 4);
    assert(txt_under(one, name) =~= seq![]);
    assert(txt_under(two, name) =~= seq![]);
    assert(txt_under(three, name) =~= txt_given(records[2], name));
    assert(txt_under(records, name) =~= txt_given(records[2], name));
    assert(addresses_at(one, host) =~= seq![]);
    assert(addresses_at(two, host) =~= seq![]);
    assert(addresses_at(three, host) =~= seq![]);
    assert(addresses_at(records, host) =~= addresses_at(placed, host));
    assert(services_given(one, all) =~= seq![]);
    assert(services_given(two, all) =~= service_given(records[1], all));
    assert(services_given(three, all) =~= service_given(records[1], all));
    assert(services_given(records, all) =~= service_given(records[1], all));
}

/// The records announcing `services`, one service after another.
pub open spec fn records_of(services: Seq<ServiceView>, ttl: u32) -> Seq<RecordView>
    decreases services.len(),
{
    if services.len() == 0 {
        seq![]
    } else {
        records_of(services.drop_last(), ttl) + services.last().records(ttl)
    }
}

/// Whether no two of `services` share a name or a host, by the case-blind
/// comparison of DNS.
pub open spec fn apart(services: Seq<ServiceView>) -> bool {
    forall|i: int, j: int|
        #![trigger services[i], services[j]]
        0 <= i < services.len() && 0 <= j < services.len() && i != j ==> {
            &&& !text::same_name(services[i].full_name(), services[j].full_name())
            &&& !text::same_name(services[i].host, services[j].host)
        }
}

/// What the records of the first `n` services give to the names of the `i`th.
proof fn lemma_given_to(services: Seq<ServiceView>, ttl: u32, n: int, i: int)
    requires
        0 <= n <= services.len(),
        0 <= i < services.len(),
        apart(services),
        forall|k: int| 0 <= k < services.len() ==> (#[trigger] services[k]).tellable(),
    ensures
        txt_under(records_of(services.take(n), ttl), services[i].full_name()) == if i < n {
            services[i].txt
        } else {
            seq![]
        },
        addresses_at(records_of(services.take(n), ttl), services[i].host) == if i < n {
            services[i].addresses
        } else {
            seq![]
        },
    decreases n,
{
    let name = services[i].full_name();
    let host = services[i].host;
    let some = records_of(services.take(n), ttl);
    if n > 0 {
        let fewer = services.take(n - 1);
        let last = services[n - 1];
        assert(services.take(n).drop_last() =~= fewer);
        assert(services.take(n).last() == last);
        lemma_given_to(services, ttl, n - 1, i);
        lemma_one_service(last, ttl, name, host, seq![]);
        lemma_txt_under_joined(records_of(fewer, ttl), last.records(ttl), name);
        lemma_addresses_at_joined(records_of(fewer, ttl), last.records(ttl), host);
        if i < n {
            assert(txt_under(some, name) =~= services[i].txt);
            assert(addresses_at(some, host) =~= services[i].addresses);
        } else {
            assert(txt_under(some, name) =~= seq![]);
            assert(addresses_at(some, host) =~= seq![]);
        }
    }
}

proof fn lemma_gathered(services: Seq<ServiceView>, ttl: u32, n: int)
    requires
        0 <= n <= services.len(),
        apart(services),
        forall|k: int| 0 <= k < services.len() ==> (#[trigger] services[k]).tellable(),
    ensures
        services_given(records_of(services.take(n), ttl), records_of(services, ttl))
            == services.take(n).map_values(|s: ServiceView| s.told()),
    decreases n,
{
    let all = records_of(services, ttl);
    let told = services.take(n).map_values(|s: ServiceView| s.told());
    if n > 0 {
        let fewer = services.take(n - 1);
        let last = services[n - 1];
        assert(services.take(n).drop_last() =~= fewer);
        assert(services.take(n).last() == last);
        lemma_gathered(services, ttl, n - 1);
        assert(services.take(services.len() as int) =~= services);
        lemma_given_to(services, ttl, services.len() as int, n - 1);
        lemma_one_service(last, ttl, seq![], seq![], all);
        lemma_services_given_joined(records_of(fewer, ttl), last.records(ttl), all);
        assert(told =~= fewer.map_values(|s: ServiceView| s.told()).push(last.told()));
        assert(services_given(records_of(services.take(n), ttl), all) =~= told);
    } else {
        assert(told =~= seq![]);
    }
}

/// Services spread over their records gather back: the records of any
/// services, one service after another, describe those services again, each
/// once and in order, where their names tell instance and kind apart and no
/// two share a name or a host. Dots that a kind ends in are lost.
pub proof fn law_services_gather_back(services: Seq<ServiceView>, ttl: u32)
    requires
        apart(services),
        forall|k: int| 0 <= k < services.len() ==> (#[trigger] services[k]).tellable(),
    ensures
        services_in(records_of(services, ttl)) == services.map_values(|s: ServiceView| s.told()),
{
    lemma_gathered(services, ttl, services.len() as int);
    assert(services.take(services.len() as int) =~= services);
}

/// A service spread over its records gathers back as that service alone,
/// where its name tells instance and kind apart. Dots that its kind ends in
/// are lost.
pub proof fn law_service_gathers_back(service: ServiceView, ttl: u32)
    requires
        service.tellable(),
    ensures
        services_in(service.records(ttl)) == seq![service.told()],
{
    let services = seq![service];
    law_services_gather_back(services, ttl);
    assert(services.drop_last() =~= seq![]);
    reveal_with_fuel(records_of, 2);
    assert(records_of(services, ttl) =~= service.records(ttl));
    assert(services.map_values(|s: ServiceView| s.told()) =~= seq![service.told()]);
}

/// Whether `record` is an SRV record whose owner is an instance name.
pub open spec fn names_service(record: RecordView) -> bool {
    record.data is Srv && name_parts(record.name) is Some
}

proof fn lemma_one_per_srv(some: Seq<RecordView>, records: Seq<RecordView>)
    ensures
        services_given(some, records).len() == some.filter(
            |r: RecordView| names_service(r),
        ).len(),
    decreases some.len(),
{
    reveal(Seq::filter);
    if some.len() > 0 {
        lemma_one_per_srv(some.drop_last(), records);
    }
}

/// Records describe one service per SRV record whose owner is an instance
/// name, and no other.
pub proof fn law_one_service_per_srv(records: Seq<RecordView>)
    ensures
        services_in(records).len() == records.filter(|r: RecordView| names_service(r)).len(),
{
    lemma_one_per_srv(records, records);
}

/// Each of several services is told one by one, in order and with none left
/// out, and with all it says.
pub proof fn law_services_are_told_one_by_one(services: Seq<Service>, i: int)
    ensures
        services_view(services).len() == services.len(),
        0 <= i < services.len() ==> {
            let told = services_view(services)[i];
            &&& told.instance == services[i].instance@
            &&& told.kind == services[i].kind@
            &&& told.port == services[i].port
            &&& told.txt == text::spellings(services[i].txt@)
            &&& told.host == services[i].host@
            &&& told.addresses == services[i].addresses@
        },
{
}

/// The names of a service are its instance, its kind and the domain with dots
/// between them, whatever dots its kind ends in.
pub proof fn law_names_are_dotted(service: ServiceView, kind: Seq<char>, dots: Seq<char>)
    requires
        service.kind == kind + dots,
        kind.len() > 0 ==> kind.last() != '.',
        forall|i: int| 0 <= i < dots.len() ==> dots[i] == '.',
    ensures
        kind_name(service.kind) == kind + ".local."@,
        full_name(service.instance, service.kind) == service.instance + "."@ + kind + ".local."@,
        service.full_name() == service.instance + "."@ + kind + ".local."@,
{
    reveal_strlit("local.");
    reveal_strlit(".local.");
    reveal_strlit(".");
    text::law_only_last_dots_go(kind, dots);
    assert(kind_name(service.kind) =~= kind + ".local."@);
    assert(full_name(service.instance, service.kind) =~= service.instance + "."@ + kind
        + ".local."@);
}

/// A name is that of an instance and a kind just where it is one label, a dot
/// and the kind in the domain, the label not empty and the kind beginning
/// with an underscore.
pub proof fn law_name_is_instance_and_kind(
    name: Seq<char>,
    instance: Seq<char>,
    kind: Seq<char>,
)
    ensures
        name_parts(name) == Some((instance, kind)) <==> {
            &&& instance.len() > 0
            &&& !instance.contains('.')
            &&& kind.len() > 0
            &&& kind[0] == '_'
            &&& name == instance + "."@ + kind + ".local."@
        },
{
    reveal_strlit("local.");
    reveal_strlit(".local.");
    reveal_strlit(".");
    let whole = instance + "."@ + kind + ".local."@;
    let base = instance.push('.') + kind;
    if instance.len() > 0 && !instance.contains('.') && kind.len() > 0 && kind[0] == '_' && name
        == whole {
        let stem = name.take(name.len() - DOMAIN@.len());
        assert(stem =~= base.push('.'));
        assert(name.skip(name.len() - DOMAIN@.len()) =~= DOMAIN@);
        assert(stem.drop_last() =~= base);
        text::lemma_parted(instance, '.', kind);
    }
    if name_parts(name) == Some((instance, kind)) {
        let at = name.len() - DOMAIN@.len();
        let stem = name.take(at);
        let front = stem.drop_last();
        text::lemma_first_at(front, '.');
        assert(front =~= base);
        assert(name =~= stem + name.skip(at));
        assert(stem =~= base.push('.'));
        assert(name =~= whole);
    }
}

/// The records announcing a service are its pointer, its place, its strings
/// and one record for each of its addresses, in order: the pointer is under
/// the kind and flushes no cache, the place and the strings are under the
/// name, the addresses under the host, and these replace what a cache held.
pub proof fn law_records_announce_all_of_a_service(service: ServiceView, ttl: u32, i: int)
    ensures
        ({
            let records = service.records(ttl);
            let name = service.full_name();
            &&& records.len() == 3 + service.addresses.len()
            &&& records[0].kind == 12 && records[0].class == 1 && records[0].ttl == ttl
            &&& records[0].name == kind_name(service.kind)
            &&& records[0].data == DataView::Ptr(name)
            &&& records[1].kind == 33 && records[1].class == 0x8001 && records[1].ttl == ttl
            &&& records[1].name == name
            &&& records[1].data == (DataView::Srv {
                priority: 0,
                weight: 0,
                port: service.port,
                target: service.host,
            })
            &&& records[2].kind == 16 && records[2].class == 0x8001 && records[2].ttl == ttl
            &&& records[2].name == name
            &&& records[2].data == DataView::Txt(service.txt)
            &&& 0 <= i < service.addresses.len() ==> {
                let placed = records[3 + i];
                &&& placed.class == 0x8001 && placed.ttl == ttl
                &&& placed.name == service.host
                &&& service.addresses[i] matches IpAddr::V4(v4) ==> placed.kind == 1 && placed.data
                    == DataView::A(v4)
                &&& service.addresses[i] matches IpAddr::V6(v6) ==> placed.kind == 28
                    && placed.data == DataView::Aaaa(v6)
            }
        }),
{
    assert(1u16 | 0x8000u16 == 0x8001u16) by (bit_vector);
}

/// What is gathered by one record after another is what those with strings of
/// the name hold, one after another.
proof fn lemma_txt_flattened(records: Seq<RecordView>, name: Seq<char>)
    ensures
        txt_under(records, name) == records.filter(
            |r: RecordView| r.kind == 16 && text::same_name(r.name, name) && r.data is Txt,
        ).map_values(|r: RecordView| r.data->Txt_0).flatten(),
    decreases records.len(),
{
    let of_name = |r: RecordView|
        r.kind == 16 && text::same_name(r.name, name) && r.data is Txt;
    let strings = |r: RecordView| r.data->Txt_0;
    reveal(Seq::filter);
    let held = records.filter(of_name).map_values(strings);
    held.lemma_flatten_and_flatten_alt_are_equivalent();
    if records.len() > 0 {
        let fewer = records.drop_last();
        lemma_txt_flattened(fewer, name);
        let before = fewer.filter(of_name).map_values(strings);
        before.lemma_flatten_and_flatten_alt_are_equivalent();
        if of_name(records.last()) {
            assert(held =~= before.push(strings(records.last())));
            assert(held.drop_last() =~= before);
        } else {
            assert(held =~= before);
            assert(txt_under(records, name) =~= txt_under(fewer, name));
        }
    }
}

/// What is gathered by one record after another is the addresses in those of
/// the host.
proof fn lemma_addresses_mapped(records: Seq<RecordView>, host: Seq<char>)
    ensures
        addresses_at(records, host) == records.filter(
            |r: RecordView| text::same_name(r.name, host) && (r.data is A || r.data is Aaaa),
        ).map_values(
            |r: RecordView|
                if r.data is A {
                    IpAddr::V4(r.data->A_0)
                } else {
                    IpAddr::V6(r.data->Aaaa_0)
                },
        ),
    decreases records.len(),
{
    let of_host = |r: RecordView|
        text::same_name(r.name, host) && (r.data is A || r.data is Aaaa);
    let address = |r: RecordView|
        if r.data is A {
            IpAddr::V4(r.data->A_0)
        } else {
            IpAddr::V6(r.data->Aaaa_0)
        };
    reveal(Seq::filter);
    if records.len() > 0 {
        let fewer = records.drop_last();
        lemma_addresses_mapped(fewer, host);
        assert(addresses_at(records, host) =~= records.filter(of_host).map_values(address));
    } else {
        assert(addresses_at(records, host) =~= records.filter(of_host).map_values(address));
    }
}

/// The services given by one record after another are those of the records
/// that name one.
proof fn lemma_services_mapped(some: Seq<RecordView>, records: Seq<RecordView>)
    ensures
        services_given(some, records) == some.filter(
            |r: RecordView| r.data is Srv && name_parts(r.name) is Some,
        ).map_values(|r: RecordView| service_given(r, records)[0]),
    decreases some.len(),
{
    let names = |r: RecordView| r.data is Srv && name_parts(r.name) is Some;
    let service = |r: RecordView| service_given(r, records)[0];
    reveal(Seq::filter);
    if some.len() > 0 {
        lemma_services_mapped(some.drop_last(), records);
        assert(services_given(some, records) =~= some.filter(names).map_values(service));
    } else {
        assert(services_given(some, records) =~= some.filter(names).map_values(service));
    }
}

/// Records describe one service for each SRV record whose owner is an
/// instance name, in the order of those: the service of that name, port and
/// target, with the strings of all the TXT records that its owner has and the
/// addresses of all the address records that its target has, in order and
/// whatever the case of their letters.
pub proof fn law_services_are_those_of_srv_records(records: Seq<RecordView>, j: int)
    ensures
        ({
            let srvs = records.filter(
                |r: RecordView| r.data is Srv && name_parts(r.name) is Some,
            );
            let found = services_in(records);
            &&& found.len() == srvs.len()
            &&& 0 <= j < srvs.len() ==> {
                let name = srvs[j].name;
                let host = srvs[j].data->target;
                &&& name_parts(name) == Some((found[j].instance, found[j].kind))
                &&& found[j].port == srvs[j].data->port
                &&& found[j].host == host
                &&& found[j].txt == records.filter(
                    |r: RecordView| r.kind == 16 && text::same_name(r.name, name) && r.data is Txt,
                ).map_values(|r: RecordView| r.data->Txt_0).flatten()
                &&& found[j].addresses == records.filter(
                    |r: RecordView|
                        text::same_name(r.name, host) && (r.data is A || r.data is Aaaa),
                ).map_values(
                    |r: RecordView|
                        if r.data is A {
                            IpAddr::V4(r.data->A_0)
                        } else {
                            IpAddr::V6(r.data->Aaaa_0)
                        },
                )
            }
        }),
{
    let names = |r: RecordView| r.data is Srv && name_parts(r.name) is Some;
    let srvs = records.filter(names);
    lemma_services_mapped(records, records);
    if 0 <= j < srvs.len() {
        records.lemma_filter_pred(names, j);
        lemma_txt_flattened(records, srvs[j].name);
        lemma_addresses_mapped(records, srvs[j].data->target);
        assert(services_in(records)[j] == service_given(srvs[j], records)[0]);
    }
}

proof fn lemma_alike(a: Seq<RecordView>, b: Seq<RecordView>, name: Seq<char>)
    requires
        a.len() == b.len(),
        forall|i: int|
            0 <= i < a.len() ==> (#[trigger] a[i]).name == b[i].name && a[i].kind == b[i].kind
                && a[i].data == b[i].data,
    ensures
        txt_under(a, name) == txt_under(b, name),
        addresses_at(a, name) == addresses_at(b, name),
    decreases a.len(),
{
    if a.len() > 0 {
        assert(a.last() == a[a.len() - 1] && b.last() == b[b.len() - 1]);
        assert forall|i: int| 0 <= i < a.drop_last().len() implies (
        #[trigger] a.drop_last()[i]).name == b.drop_last()[i].name && a.drop_last()[i].kind
            == b.drop_last()[i].kind && a.drop_last()[i].data == b.drop_last()[i].data by {
            assert(a.drop_last()[i] == a[i]);
        }
        lemma_alike(a.drop_last(), b.drop_last(), name);
    }
}

proof fn lemma_alike_given(
    a: Seq<RecordView>,
    b: Seq<RecordView>,
    all_a: Seq<RecordView>,
    all_b: Seq<RecordView>,
)
    requires
        a.len() == b.len(),
        forall|i: int|
            0 <= i < a.len() ==> (#[trigger] a[i]).name == b[i].name && a[i].kind == b[i].kind
                && a[i].data == b[i].data,
        all_a.len() == all_b.len(),
        forall|i: int|
            0 <= i < all_a.len() ==> (#[trigger] all_a[i]).name == all_b[i].name && all_a[i].kind
                == all_b[i].kind && all_a[i].data == all_b[i].data,
    ensures
        services_given(a, all_a) == services_given(b, all_b),
    decreases a.len(),
{
    if a.len() > 0 {
        let r = a.last();
        assert(r == a[a.len() - 1] && b.last() == b[b.len() - 1]);
        assert forall|i: int| 0 <= i < a.drop_last().len() implies (
        #[trigger] a.drop_last()[i]).name == b.drop_last()[i].name && a.drop_last()[i].kind
            == b.drop_last()[i].kind && a.drop_last()[i].data == b.drop_last()[i].data by {
            assert(a.drop_last()[i] == a[i]);
        }
        lemma_alike_given(a.drop_last(), b.drop_last(), all_a, all_b);
        lemma_alike(all_a, all_b, r.name);
        lemma_alike(all_a, all_b, r.data->target);
    }
}

/// Neither class nor time to live tells services apart: records that agree in
/// owner, type and data describe the same services, whatever class each is of
/// and however long each lives.
pub proof fn law_class_and_ttl_tell_nothing(a: Seq<RecordView>, b: Seq<RecordView>)
    requires
        a.len() == b.len(),
        forall|i: int|
            0 <= i < a.len() ==> (#[trigger] a[i]).name == b[i].name && a[i].kind == b[i].kind
                && a[i].data == b[i].data,
    ensures
        services_in(a) == services_in(b),
{
    lemma_alike_given(a, b, a, b);
}

proof fn lemma_txt_held(records: Seq<RecordView>, name: Seq<char>, i: int, k: int)
    requires
        0 <= i < records.len(),
        records[i].kind == 16,
        text::same_name(records[i].name, name),
        records[i].data is Txt,
        0 <= k < records[i].data->Txt_0.len(),
    ensures
        txt_under(records, name).contains(records[i].data->Txt_0[k]),
    decreases records.len(),
{
    let string = records[i].data->Txt_0[k];
    let before = txt_under(records.drop_last(), name);
    let all = txt_under(records, name);
    if i < records.len() - 1 {
        lemma_txt_held(records.drop_last(), name, i, k);
        let at = choose|at: int| 0 <= at < before.len() && before[at] == string;
        assert(all[at] == string);
    } else {
        assert(all[before.len() + k] == string);
    }
}

proof fn lemma_address_held(records: Seq<RecordView>, host: Seq<char>, i: int, address: IpAddr)
    requires
        0 <= i < records.len(),
        text::same_name(records[i].name, host),
        records[i].data == match address {
            IpAddr::V4(v4) => DataView::A(v4),
            IpAddr::V6(v6) => DataView::Aaaa(v6),
        },
    ensures
        addresses_at(records, host).contains(address),
    decreases records.len(),
{
    let before = addresses_at(records.drop_last(), host);
    let all = addresses_at(records, host);
    if i < records.len() - 1 {
        lemma_address_held(records.drop_last(), host, i, address);
        let at = choose|at: int| 0 <= at < before.len() && before[at] == address;
        assert(all[at] == address);
    } else {
        assert(all[before.len() as int] == address);
    }
}

/// Nothing said of a service is lost: wherever an SRV record with an instance
/// name stands among records, one of the services they describe has its port
/// and target, every string of every TXT record that its owner has, and every
/// address that its target has.
pub proof fn law_nothing_said_of_a_service_is_lost(
    records: Seq<RecordView>,
    srv: int,
    txt: int,
    k: int,
    placed: int,
    address: IpAddr,
)
    requires
        0 <= srv < records.len(),
        records[srv].data is Srv,
        name_parts(records[srv].name) is Some,
    ensures
        exists|j: int|
            0 <= j < services_in(records).len() && {
                let found = #[trigger] services_in(records)[j];
                &&& name_parts(records[srv].name) == Some((found.instance, found.kind))
                &&& found.port == records[srv].data->port
                &&& found.host == records[srv].data->target
                &&& 0 <= txt < records.len() && records[txt].kind == 16 && text::same_name(
                    records[txt].name,
                    records[srv].name,
                ) && records[txt].data is Txt && 0 <= k < records[txt].data->Txt_0.len()
                    ==> found.txt.contains(records[txt].data->Txt_0[k])
                &&& 0 <= placed < records.len() && text::same_name(
                    records[placed].name,
                    records[srv].data->target,
                ) && records[placed].data == (match address {
                    IpAddr::V4(v4) => DataView::A(v4),
                    IpAddr::V6(v6) => DataView::Aaaa(v6),
                }) ==> found.addresses.contains(address)
            },
{
    let names = |r: RecordView| r.data is Srv && name_parts(r.name) is Some;
    let srvs = records.filter(names);
    records.lemma_filter_contains(names, srv);
    let j = choose|j: int| 0 <= j < srvs.len() && srvs[j] == records[srv];
    lemma_services_mapped(records, records);
    if 0 <= txt < records.len() && records[txt].kind == 16 && text::same_name(
        records[txt].name,
        records[srv].name,
    ) && records[txt].data is Txt && 0 <= k < records[txt].data->Txt_0.len() {
        lemma_txt_held(records, records[srv].name, txt, k);
    }
    if 0 <= placed < records.len() && text::same_name(
        records[placed].name,
        records[srv].data->target,
    ) && records[placed].data == (match address {
        IpAddr::V4(v4) => DataView::A(v4),
        IpAddr::V6(v6) => DataView::Aaaa(v6),
    }) {
        lemma_address_held(records, records[srv].data->target, placed, address);
    }
    assert(services_in(records)[j] == service_given(srvs[j], records)[0]);
}

/// Whether no two of `services` share a name, by the case-blind comparison of
/// DNS.
pub open spec fn named_apart(services: Seq<ServiceView>) -> bool {
    forall|i: int, j: int|
        #![trigger services[i], services[j]]
        0 <= i < services.len() && 0 <= j < services.len() && i != j ==> !text::same_name(
            services[i].full_name(),
            services[j].full_name(),
        )
}

/// The TXT strings that the records of the first `n` services give to the
/// name of the `i`th.
proof fn lemma_txt_given_to(services: Seq<ServiceView>, ttl: u32, n: int, i: int)
    requires
        0 <= n <= services.len(),
        0 <= i < services.len(),
        named_apart(services),
        forall|k: int| 0 <= k < services.len() ==> (#[trigger] services[k]).tellable(),
    ensures
        txt_under(records_of(services.take(n), ttl), services[i].full_name()) == if i < n {
            services[i].txt
        } else {
            seq![]
        },
    decreases n,
{
    let name = services[i].full_name();
    let some = records_of(services.take(n), ttl);
    if n > 0 {
        let fewer = services.take(n - 1);
        let last = services[n - 1];
        assert(services.take(n).drop_last() =~= fewer);
        assert(services.take(n).last() == last);
        lemma_txt_given_to(services, ttl, n - 1, i);
        lemma_one_service(last, ttl, name, seq![], seq![]);
        lemma_txt_under_joined(records_of(fewer, ttl), last.records(ttl), name);
        if i < n {
            assert(txt_under(some, name) =~= services[i].txt);
        } else {
            assert(txt_under(some, name) =~= seq![]);
        }
    }
}

/// The addresses that the records of services give to a host.
proof fn lemma_addresses_given_to(services: Seq<ServiceView>, ttl: u32, host: Seq<char>)
    requires
        forall|k: int| 0 <= k < services.len() ==> (#[trigger] services[k]).tellable(),
    ensures
        addresses_at(records_of(services, ttl), host) == services.filter(
            |s: ServiceView| text::same_name(s.host, host),
        ).map_values(|s: ServiceView| s.addresses).flatten(),
    decreases services.len(),
{
    let at_host = |s: ServiceView| text::same_name(s.host, host);
    let addresses = |s: ServiceView| s.addresses;
    let held = services.filter(at_host).map_values(addresses);
    reveal(Seq::filter);
    held.lemma_flatten_and_flatten_alt_are_equivalent();
    if services.len() > 0 {
        let fewer = services.drop_last();
        let last = services.last();
        assert(last == services[services.len() - 1]);
        assert forall|k: int| 0 <= k < fewer.len() implies (#[trigger] fewer[k]).tellable() by {
            assert(fewer[k] == services[k]);
        }
        lemma_addresses_given_to(fewer, ttl, host);
        lemma_one_service(last, ttl, seq![], host, seq![]);
        lemma_addresses_at_joined(records_of(fewer, ttl), last.records(ttl), host);
        let before = fewer.filter(at_host).map_values(addresses);
        before.lemma_flatten_and_flatten_alt_are_equivalent();
        if at_host(last) {
            assert(held =~= before.push(last.addresses));
            assert(held.drop_last() =~= before);
        } else {
            assert(held =~= before);
            assert(addresses_at(records_of(services, ttl), host) =~= before.flatten());
        }
    }
}

proof fn lemma_named_gathered(services: Seq<ServiceView>, ttl: u32, n: int)
    requires
        0 <= n <= services.len(),
        named_apart(services),
        forall|k: int| 0 <= k < services.len() ==> (#[trigger] services[k]).tellable(),
    ensures
        services_given(records_of(services.take(n), ttl), records_of(services, ttl))
            == services.take(n).map_values(
            |s: ServiceView|
                ServiceView {
                    addresses: addresses_at(records_of(services, ttl), s.host),
                    ..s.told()
                },
        ),
    decreases n,
{
    let all = records_of(services, ttl);
    let to = |s: ServiceView| ServiceView { addresses: addresses_at(all, s.host), ..s.told() };
    let told = services.take(n).map_values(to);
    if n > 0 {
        let fewer = services.take(n - 1);
        let last = services[n - 1];
        assert(services.take(n).drop_last() =~= fewer);
        assert(services.take(n).last() == last);
        lemma_named_gathered(services, ttl, n - 1);
        assert(services.take(services.len() as int) =~= services);
        lemma_txt_given_to(services, ttl, services.len() as int, n - 1);
        lemma_one_service(last, ttl, seq![], seq![], all);
        lemma_services_given_joined(records_of(fewer, ttl), last.records(ttl), all);
        assert(told =~= fewer.map_values(to).push(to(last)));
        assert(services_given(records_of(services.take(n), ttl), all) =~= told);
    } else {
        assert(told =~= seq![]);
    }
}

/// Services that share a host gather back too: the records of any services,
/// one service after another, describe those services again, each once and in
/// order, where their names tell instance and kind apart and no two share a
/// name. Each has the addresses that all the services on its host have, in
/// order. Dots that a kind ends in are lost.
pub proof fn law_services_on_one_host_gather_back(services: Seq<ServiceView>, ttl: u32, k: int)
    requires
        named_apart(services),
        forall|i: int| 0 <= i < services.len() ==> (#[trigger] services[i]).tellable(),
    ensures
        services_in(records_of(services, ttl)).len() == services.len(),
        0 <= k < services.len() ==> services_in(records_of(services, ttl))[k] == (ServiceView {
            addresses: services.filter(
                |s: ServiceView| text::same_name(s.host, services[k].host),
            ).map_values(|s: ServiceView| s.addresses).flatten(),
            ..services[k].told()
        }),
{
    lemma_named_gathered(services, ttl, services.len() as int);
    assert(services.take(services.len() as int) =~= services);
    if 0 <= k < services.len() {
        lemma_addresses_given_to(services, ttl, services[k].host);
    }
}

} // verus!
