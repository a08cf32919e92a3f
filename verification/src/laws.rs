//! What holds of a node and of a Stream as a whole, over the functions of
//! several modules.

use vstd::prelude::*;
use vstd::utf8::{
    decode_utf8, encode_utf8, encode_utf8_decode_utf8, encode_utf8_valid_utf8, is_ascii_chars,
    is_ascii_chars_encode_utf8,
};

use crate::address;
use crate::address::Ipv4Addr;
use crate::error::ErrorView;
use crate::hex;
use crate::loopback;
use crate::loopback::{TakenView, TakingView, CHUNK, INSTANCE, KIND, STRING};
use crate::message::{self, MessageView};
use crate::service;
use crate::service::{ServiceView, DOMAIN};
use crate::text;
use crate::transport;
use crate::transport::{ArrivedView, TransportView, TTL};
use crate::txt;

verus! {

// ------------------------------------------------------------------- hosts

/// A placed host stays: it ends in `.local.`, whatever the case of its
/// letters, and placing it again changes nothing.
pub proof fn law_placed_host_stays(host: Seq<char>)
    ensures
        text::ends(text::lowered(transport::placed_host(host)), ".local."@),
        transport::placed_host(transport::placed_host(host)) == transport::placed_host(host),
{
    reveal_strlit("local.");
    reveal_strlit(".local");
    reveal_strlit(".local.");
    let bare = text::undotted(host);
    text::lemma_undotted(host);
    let placed = transport::placed_host(host);
    if text::ends(text::lowered(bare), ".local"@) {
        text::lemma_undotted_stays(bare);
        let low = text::lowered(bare);
        assert(low.skip(low.len() - 6) == ".local"@);
        assert(text::lowered(placed) =~= low.push('.'));
        assert(text::lowered(placed).skip(low.len() - 6) =~= ".local"@.push('.'));
        assert(".local"@.push('.') =~= ".local."@);
    } else {
        let whole = bare + ".local"@;
        assert(placed =~= whole.push('.'));
        text::lemma_undotted_stays(whole);
        let low = text::lowered(whole);
        assert(low.skip(low.len() - 6) =~= ".local"@);
        assert(text::lowered(placed) =~= low.push('.'));
        assert(text::lowered(placed).skip(low.len() - 6) =~= ".local."@);
    }
}

// ------------------------------------------------------------------ groups

/// Multicast is joined in 224/4 alone: of every IPv4 address and port, those
/// in 224/4 are bound as the port on every interface with the group joined,
/// and all others are no group.
pub proof fn law_multicast_is_joined(ip: Ipv4Addr, port: u16)
    ensures
        transport::group_bound(address::written_socket_v4(ip, port)) == if 224 <= ip.0 <= 239 {
            Some((ip, "0.0.0.0:"@ + text::decimal(port as nat)))
        } else {
            None
        },
{
    address::law_address_reads_back(ip, port);
}

/// The group mDNS lives on is joined: a node that listens at it binds port
/// 5353 on every interface and joins 224.0.0.251.
pub proof fn law_the_group_is_joined()
    ensures
        transport::group_bound(transport::GROUP@) == Some(
            (Ipv4Addr(224, 0, 0, 251), "0.0.0.0:5353"@),
        ),
{
    reveal_strlit("224.0.0.251:5353");
    reveal_strlit("0.0.0.0:5353");
    reveal_strlit("0.0.0.0:");
    let ip = Ipv4Addr(224, 0, 0, 251);
    reveal_with_fuel(text::decimal, 5);
    assert(text::decimal(224) =~= seq!['2', '2', '4']);
    assert(text::decimal(0) =~= seq!['0']);
    assert(text::decimal(251) =~= seq!['2', '5', '1']);
    assert(text::decimal(5353) =~= seq!['5', '3', '5', '3']);
    assert(address::written_socket_v4(ip, 5353) =~= transport::GROUP@);
    law_multicast_is_joined(ip, 5353);
    assert("0.0.0.0:"@ + text::decimal(5353) =~= "0.0.0.0:5353"@);
}

// ----------------------------------------------------------- announcements

/// A name that splits gives an instance of one label and a kind that begins
/// with an underscore.
proof fn lemma_name_parts(name: Seq<char>)
    ensures
        service::name_parts(name) matches Some((instance, kind)) ==> {
            &&& instance.len() > 0
            &&& !instance.contains('.')
            &&& kind.len() > 0
            &&& kind[0] == '_'
        },
{
    let base = name.take(name.len() - DOMAIN@.len()).drop_last();
    text::lemma_first_at(base, '.');
}

/// Who the service that a target names is.
proof fn lemma_target_service(node: TransportView, target: Seq<char>)
    ensures
        transport::target_service(node, target) matches Ok((_, named)) ==> named.tellable(),
{
    if let Some((address, path)) = transport::uri_parts(target) {
        let at = text::first_at(path, '?') as int;
        lemma_name_parts(text::undotted(path.take(at)).push('.'));
    }
}

/// The response announcing one service arrives as that service alone.
proof fn lemma_response_arrives(peer: Seq<char>, id: u16, sent: ServiceView)
    requires
        sent.tellable(),
    ensures
        transport::arrivals(peer, MessageView::response(id, sent.records(TTL))) == seq![
            transport::arrival(peer, sent),
        ],
{
    service::law_service_gathers_back(sent, TTL);
    text::lemma_undotted(sent.kind);
    text::lemma_undotted_stays(text::undotted(sent.kind));
    assert(sent.told().full_name() == sent.full_name());
    assert(seq![sent.told()].map_values(|s: ServiceView| transport::arrival(peer, s)) =~= seq![
        transport::arrival(peer, sent),
    ]);
}

/// Every service answered arrives: a response with the records of several
/// services arrives as those services, each once and in order, where their
/// names tell instance and kind apart and no two share a name. They may share
/// a host.
pub proof fn law_every_service_arrives(peer: Seq<char>, id: u16, services: Seq<ServiceView>)
    requires
        service::named_apart(services),
        forall|k: int| 0 <= k < services.len() ==> (#[trigger] services[k]).tellable(),
    ensures
        transport::arrivals(peer, MessageView::response(id, service::records_of(services, TTL)))
            == services.map_values(|s: ServiceView| transport::arrival(peer, s)),
{
    let found = service::services_in(service::records_of(services, TTL));
    let to = |s: ServiceView| transport::arrival(peer, s);
    service::law_services_on_one_host_gather_back(services, TTL, 0);
    assert forall|k: int| 0 <= k < services.len() implies transport::arrival(peer, found[k])
        == transport::arrival(peer, services[k]) by {
        service::law_services_on_one_host_gather_back(services, TTL, k);
        text::lemma_undotted(services[k].kind);
        text::lemma_undotted_stays(text::undotted(services[k].kind));
    }
    assert(found.map_values(to) =~= services.map_values(to));
}

/// An announcement arrives as its TXT with the service in the origin: what a
/// node announces to a target, another takes as one arrival, whose bytes are
/// the TXT strings as lines and whose origin names the peer, the instance,
/// the kind, the port and the host.
pub proof fn law_announcement_arrives(
    node: TransportView,
    target: Seq<char>,
    strings: Seq<Seq<char>>,
    peer: Seq<char>,
)
    ensures
        match (
            transport::target_service(node, target),
            transport::announcement(node, target, strings),
        ) {
            (Ok((address, named)), Ok((to, sent))) => {
                &&& to == address
                &&& transport::arrivals(peer, sent) == seq![
                    transport::arrival(peer, ServiceView { txt: strings, ..named }),
                ]
            },
            (Err(e), Err(f)) => e == f,
            _ => false,
        },
{
    lemma_target_service(node, target);
    if let Ok((address, named)) = transport::target_service(node, target) {
        lemma_response_arrives(peer, 0, ServiceView { txt: strings, ..named });
    }
}

/// An announcement says all of the service that its target names: it goes to
/// the address of the target as a response that asks nothing, its records
/// live 120 seconds, and they are those of exactly one service, of the
/// instance, kind and port of the target, with the TXT strings given, on the
/// host of the node and at every one of its addresses, in order.
pub proof fn law_announcement_says_all(
    node: TransportView,
    target: Seq<char>,
    strings: Seq<Seq<char>>,
)
    ensures
        match (
            transport::target_service(node, target),
            transport::announcement(node, target, strings),
        ) {
            (Ok((address, named)), Ok((to, sent))) => {
                &&& to == address
                &&& sent.response && sent.id == 0 && sent.questions.len() == 0
                &&& sent.records.len() == 3 + node.addresses.len()
                &&& forall|i: int|
                    0 <= i < sent.records.len() ==> (#[trigger] sent.records[i]).ttl == 120
                &&& sent.records == (ServiceView {
                    instance: named.instance,
                    kind: named.kind,
                    port: named.port,
                    txt: strings,
                    host: node.host,
                    addresses: node.addresses,
                }).records(120)
                &&& service::services_in(sent.records) == seq![
                    ServiceView {
                        instance: named.instance,
                        kind: text::undotted(named.kind),
                        port: named.port,
                        txt: strings,
                        host: node.host,
                        addresses: node.addresses,
                    },
                ]
            },
            (Err(e), Err(f)) => e == f,
            _ => false,
        },
{
    lemma_target_service(node, target);
    if let Ok((address, named)) = transport::target_service(node, target) {
        assert(named.host == node.host && named.addresses == node.addresses);
        lemma_announced(ServiceView { txt: strings, ..named });
    }
}

/// The records that announce a service.
proof fn lemma_announced(sent: ServiceView)
    requires
        sent.tellable(),
    ensures
        sent.records(TTL) == sent.records(120),
        sent.records(TTL).len() == 3 + sent.addresses.len(),
        forall|i: int|
            0 <= i < sent.records(TTL).len() ==> (#[trigger] sent.records(TTL)[i]).ttl == 120,
        service::services_in(sent.records(TTL)) == seq![sent.told()],
{
    service::law_service_gathers_back(sent, TTL);
    service::law_records_announce_all_of_a_service(sent, TTL, 0);
    assert forall|i: int| 0 <= i < sent.records(TTL).len() implies (
    #[trigger] sent.records(TTL)[i]).ttl == 120 by {
        law_only_the_pointer_is_shared(sent, TTL, i);
    }
}

/// A Stream of lines announced arrives as the same Stream: what any text
/// names is announced as TXT strings, and the bytes that arrive name the same
/// strings.
pub proof fn law_announced_stream_arrives(
    node: TransportView,
    target: Seq<char>,
    stream: Seq<char>,
    peer: Seq<char>,
)
    ensures
        transport::announcement(node, target, txt::txt_named(stream)) matches Ok((_, sent)) ==> {
            let found = transport::arrivals(peer, sent);
            &&& found.len() == 1
            &&& txt::txt_named(decode_utf8(found[0].bytes)) == txt::txt_named(stream)
        },
{
    law_announcement_arrives(node, target, txt::txt_named(stream), peer);
    txt::law_named_txt_is_settled(stream);
}

/// A Stream of settled lines arrives unchanged: the bytes that TXT strings
/// make, where none is blank, has whitespace around it or a line feed in it,
/// are the bytes that arrive of their announcement.
pub proof fn law_stream_of_lines_arrives_unchanged(
    node: TransportView,
    target: Seq<char>,
    strings: Seq<Seq<char>>,
    peer: Seq<char>,
)
    requires
        forall|i: int| 0 <= i < strings.len() ==> txt::settled(#[trigger] strings[i]),
    ensures
        ({
            let bytes = encode_utf8(txt::lined(strings));
            let named = txt::txt_named(decode_utf8(bytes));
            transport::announcement(node, target, named) matches Ok((_, sent)) ==> {
                let found = transport::arrivals(peer, sent);
                &&& found.len() == 1
                &&& found[0].bytes == bytes
            }
        }),
{
    txt::law_txt_reads_back(strings);
    law_announcement_arrives(node, target, strings, peer);
}

/// What is not `mdns://authority/path`, a bare `host:port` among it, names no
/// service and is refused.
pub proof fn law_bare_target_is_refused(
    node: TransportView,
    target: Seq<char>,
    strings: Seq<Seq<char>>,
)
    requires
        !text::starts(target, "mdns://"@) || !target.skip("mdns://"@.len() as int).contains('/'),
    ensures
        transport::target_service(node, target) == Err::<(Seq<char>, ServiceView), ErrorView>(
            ErrorView::NoService(target),
        ),
        transport::announcement(node, target, strings) == Err::<
            (Seq<char>, MessageView),
            ErrorView,
        >(ErrorView::NoService(target)),
{
    let rest = target.skip("mdns://"@.len() as int);
    text::lemma_first_at(rest, '/');
    if text::first_at(rest, '/') < rest.len() {
        assert(rest.contains(rest[text::first_at(rest, '/') as int]));
    }
}

/// A query is not a service: nothing arrives with one, whatever it asks.
pub proof fn law_query_is_no_service(peer: Seq<char>, name: Seq<char>, kind: u16)
    ensures
        transport::arrivals(peer, MessageView::query(name, kind)) == Seq::<ArrivedView>::empty(),
{
}

/// Browsing meets the pointer: the name that a node browsing for the kind of
/// a service asks for is the name its PTR record is under, and that record
/// points at the service.
pub proof fn law_browsing_meets_the_pointer(kind: Seq<char>, told: ServiceView, ttl: u32)
    requires
        text::undotted(told.kind) == text::undotted(kind),
    ensures
        told.records(ttl)[0].name == text::undotted(kind).push('.') + DOMAIN@,
        told.records(ttl)[0].kind == message::TYPE_PTR,
        told.records(ttl)[0].data == message::DataView::Ptr(told.full_name()),
{
}

/// Only the pointer is shared: of the records announcing a service every one
/// lives `ttl` seconds, and every one but the PTR replaces what a cache held.
pub proof fn law_only_the_pointer_is_shared(told: ServiceView, ttl: u32, i: int)
    requires
        0 <= i < told.records(ttl).len(),
    ensures
        told.records(ttl)[i].ttl == ttl,
        told.records(ttl)[i].class & message::BIT_UNICAST == if i == 0 {
            0
        } else {
            message::BIT_UNICAST
        },
        told.records(ttl)[i].kind == message::TYPE_PTR <==> i == 0,
{
    assert(1u16 & 0x8000u16 == 0 && (1u16 | 0x8000u16) & 0x8000u16 == 0x8000u16) by (bit_vector);
}

// ----------------------------------------------------------------- origins

/// The peer that an arrival came from is the peer its origin names.
pub proof fn law_origin_names_the_peer(peer: Seq<char>, told: ServiceView)
    requires
        peer.len() > 0,
        !peer.contains('/'),
    ensures
        transport::origin_peer(transport::arrival(peer, told).origin_uri) == Ok::<
            Seq<char>,
            ErrorView,
        >(peer),
{
    lemma_origin_parts(peer, told);
}

/// What follows the name of a service in an origin.
spec fn origin_query(told: ServiceView) -> Seq<char> {
    "port="@ + text::decimal(told.port as nat) + "&host="@ + told.host
}

proof fn lemma_origin_parts(peer: Seq<char>, told: ServiceView)
    requires
        !peer.contains('/'),
    ensures
        transport::uri_parts(transport::arrival(peer, told).origin_uri) == Some(
            (peer, text::undotted(told.full_name()).push('?') + origin_query(told)),
        ),
{
    reveal_strlit("mdns://");
    reveal_strlit("/");
    reveal_strlit("?port=");
    reveal_strlit("port=");
    let uri = transport::arrival(peer, told).origin_uri;
    let path = text::undotted(told.full_name()).push('?') + origin_query(told);
    text::lemma_parted(peer, '/', path);
    assert(uri =~= "mdns://"@ + (peer.push('/') + path));
    assert(uri.take(7) =~= "mdns://"@);
    assert(uri.skip(7) =~= peer.push('/') + path);
}

/// The name of a service without its last dot.
proof fn lemma_bare_name(told: ServiceView)
    requires
        !told.instance.contains('?'),
        !told.kind.contains('?'),
    ensures
        text::undotted(told.full_name()).push('.') == told.full_name(),
        text::undotted(text::undotted(told.full_name())) == text::undotted(told.full_name()),
        !text::undotted(told.full_name()).contains('?'),
{
    reveal_strlit("local.");
    let kind = text::undotted(told.kind);
    text::lemma_undotted(told.kind);
    let name = told.full_name();
    let bare = name.drop_last();
    assert(bare.last() == 'l');
    assert(name =~= bare.push('.'));
    text::lemma_undotted_stays(bare);
    if bare.contains('?') {
        let i = choose|i: int| 0 <= i < bare.len() && bare[i] == '?';
        let n = told.instance.len() as int;
        let k = kind.len() as int;
        if i < n {
            assert(told.instance[i] == '?');
        } else if n < i < n + 1 + k {
            assert(kind[i - n - 1] == '?');
            assert(told.kind[i - n - 1] == '?');
        } else if n + 1 + k < i {
            assert(DOMAIN@[i - n - k - 2] == '?');
        }
    }
}

/// The port in an origin.
proof fn lemma_origin_port(told: ServiceView)
    ensures
        transport::first_port(text::split(origin_query(told), '&')) == Some(told.port),
{
    reveal_strlit("port=");
    reveal_strlit("&host=");
    let query = origin_query(told);
    let number = text::decimal(told.port as nat);
    let pair = "port="@ + number;
    let rest = query.skip(pair.len() as int + 1);
    text::lemma_decimal_holds_no(told.port as nat, '&');
    if pair.contains('&') {
        let i = choose|i: int| 0 <= i < pair.len() && pair[i] == '&';
        if i >= 5 {
            assert(number[i - 5] == '&');
        }
    }
    assert(query =~= pair.push('&') + rest);
    text::lemma_parted(pair, '&', rest);
    assert(text::split(query, '&')[0] == pair);
    assert(pair.take(5) =~= "port="@);
    assert(pair.skip(5) =~= number);
    text::law_decimal_reads_back(told.port as nat, u16::MAX as nat);
    assert(transport::port_given(pair) == Some(told.port));
}

/// An origin names its service: as a target, the origin of an arrival goes to
/// the peer it came from and names the service that arrived, where neither
/// the instance nor the kind holds a question mark and the peer holds no
/// slash. Dots that the kind ends in are lost.
pub proof fn law_origin_names_the_service(
    node: TransportView,
    peer: Seq<char>,
    told: ServiceView,
)
    requires
        told.tellable(),
        !peer.contains('/'),
        !told.instance.contains('?'),
        !told.kind.contains('?'),
    ensures
        transport::target_service(node, transport::arrival(peer, told).origin_uri) == Ok::<
            (Seq<char>, ServiceView),
            ErrorView,
        >(
            (
                peer,
                ServiceView {
                    txt: seq![],
                    host: node.host,
                    addresses: node.addresses,
                    ..told.told()
                },
            ),
        ),
{
    let bare = text::undotted(told.full_name());
    let query = origin_query(told);
    lemma_origin_parts(peer, told);
    lemma_bare_name(told);
    text::lemma_parted(bare, '?', query);
    service::law_name_reads_back(told);
    lemma_origin_port(told);
}

// ----------------------------------------------------------------- Streams

/// A query names its chunk: the name that the browser asks for chunk `n` by
/// is the name of the instance that the responder answers with, and asks for
/// chunk `n`.
pub proof fn law_query_names_its_chunk(node: TransportView, n: nat, strings: Seq<Seq<char>>)
    requires
        n <= usize::MAX,
    ensures
        loopback::chunk_named(loopback::chunk_name(n)) == Ok::<usize, ErrorView>(n as usize),
        loopback::kind_service(node, loopback::chunk_instance(n), strings).full_name()
            == loopback::chunk_name(n),
{
    reveal_strlit("chunk-");
    reveal_strlit(".");
    reveal_strlit("_xmip._udp");
    reveal_strlit(".local.");
    reveal_strlit("local.");
    let name = loopback::chunk_name(n);
    let number = text::decimal(n);
    let after = KIND@ + ".local."@;
    text::lemma_decimal_holds_no(n, '.');
    text::lemma_parted(number, '.', after);
    assert(name.take(6) =~= "chunk-"@);
    assert(name.skip(6) =~= number.push('.') + after);
    text::law_decimal_reads_back(n, usize::MAX as nat);
    text::lemma_undotted_stays(KIND@);
    let answered = loopback::kind_service(node, loopback::chunk_instance(n), strings);
    assert(answered.full_name() =~= name);
}

/// The services of an exchange tell instance and kind apart.
proof fn lemma_exchange_tellable(node: TransportView, n: nat, strings: Seq<Seq<char>>)
    ensures
        loopback::kind_service(node, loopback::chunk_instance(n), strings).tellable(),
        loopback::kind_service(node, INSTANCE@, strings).tellable(),
{
    reveal_strlit("chunk-");
    reveal_strlit("stream");
    reveal_strlit("_xmip._udp");
    text::lemma_decimal_holds_no(n, '.');
    let instance = loopback::chunk_instance(n);
    if instance.contains('.') {
        let i = choose|i: int| 0 <= i < instance.len() && instance[i] == '.';
        if i >= 6 {
            assert(text::decimal(n)[i - 6] == '.');
        }
    }
}

/// A service of an exchange is of the kind of all of them, on port 1 and on
/// the host and at the addresses of the node.
pub proof fn law_services_of_an_exchange(
    node: TransportView,
    instance: Seq<char>,
    strings: Seq<Seq<char>>,
)
    ensures
        loopback::kind_service(node, instance, strings) == (ServiceView {
            instance,
            kind: "_xmip._udp"@,
            port: 1,
            txt: strings,
            host: node.host,
            addresses: node.addresses,
        }),
{
}

/// A service of an exchange keeps its kind.
proof fn lemma_exchange_told(node: TransportView, instance: Seq<char>, strings: Seq<Seq<char>>)
    ensures
        loopback::kind_service(node, instance, strings).told() == loopback::kind_service(
            node,
            instance,
            strings,
        ),
{
    reveal_strlit("_xmip._udp");
    text::lemma_undotted_stays(KIND@);
}

/// The responder announces itself as one service without strings, in a
/// response that asks nothing.
pub proof fn law_responder_announces_one_service(node: TransportView)
    ensures
        ({
            let sent = loopback::stream_announced(node);
            let told = ServiceView {
                instance: "stream"@,
                kind: "_xmip._udp"@,
                port: 1,
                txt: seq![],
                host: node.host,
                addresses: node.addresses,
            };
            &&& sent.response && sent.id == 0 && sent.questions.len() == 0
            &&& sent.records == told.records(120)
            &&& service::services_in(sent.records) == seq![told]
        }),
{
    let told = loopback::kind_service(node, INSTANCE@, seq![]);
    lemma_exchange_tellable(node, 0, seq![]);
    lemma_exchange_told(node, INSTANCE@, seq![]);
    lemma_announced(told);
}

/// An answer is the chunk asked for: the first question of a query for chunk
/// `n` is answered, under the number of the query, with the one service
/// `chunk-N` whose strings carry that chunk, and closes the exchange just
/// where the chunk begins past the end. What asks for no chunk is refused, as
/// is what asks nothing.
pub proof fn law_answer_is_the_chunk_asked_for(
    node: TransportView,
    payload: Seq<u8>,
    query: MessageView,
)
    ensures
        ({
            let name = if query.questions.len() > 0 {
                query.questions[0].name
            } else {
                seq![]
            };
            match (loopback::chunk_named(name), loopback::stream_answer(node, payload, query)) {
                (Ok(n), Ok((answer, done))) => {
                    let told = ServiceView {
                        instance: "chunk-"@ + text::decimal(n as nat),
                        kind: "_xmip._udp"@,
                        port: 1,
                        txt: loopback::chunk_strings(payload, n as int),
                        host: node.host,
                        addresses: node.addresses,
                    };
                    &&& answer.response && answer.id == query.id && answer.questions.len() == 0
                    &&& answer.records == told.records(120)
                    &&& service::services_in(answer.records) == seq![told]
                    &&& done <==> n * 4000 >= payload.len()
                },
                (Err(e), Err(f)) => e == f,
                _ => false,
            }
        }),
{
    assert(CHUNK == 4000);
    let name = loopback::name_asked(query);
    if let Ok(n) = loopback::chunk_named(name) {
        let strings = loopback::chunk_strings(payload, n as int);
        let told = loopback::kind_service(node, loopback::chunk_instance(n as nat), strings);
        lemma_exchange_tellable(node, n as nat, strings);
        lemma_exchange_told(node, loopback::chunk_instance(n as nat), strings);
        lemma_announced(told);
        loopback::law_cut_wherever_a_stretch_is_full(payload, CHUNK as nat, n as int);
    }
}

/// `pieces` one after another.
pub open spec fn joined(pieces: Seq<Seq<u8>>) -> Seq<u8>
    decreases pieces.len(),
{
    if pieces.len() == 0 {
        seq![]
    } else {
        joined(pieces.drop_last()) + pieces.last()
    }
}

proof fn lemma_joined_front(first: Seq<u8>, rest: Seq<Seq<u8>>)
    ensures
        joined(seq![first] + rest) == first + joined(rest),
    decreases rest.len(),
{
    let all = seq![first] + rest;
    if rest.len() == 0 {
        assert(joined(all.drop_last()) =~= seq![]);
        assert(joined(all) =~= first + joined(rest));
    } else {
        assert(all.drop_last() =~= seq![first] + rest.drop_last());
        lemma_joined_front(first, rest.drop_last());
        assert(joined(all) =~= first + joined(rest));
    }
}

/// Cutting loses nothing: the stretches that bytes are cut into are those
/// bytes one after another, none is empty and none is over the size.
pub proof fn law_cut_loses_nothing(bytes: Seq<u8>, size: nat)
    requires
        size > 0,
    ensures
        joined(loopback::cut(bytes, size)) == bytes,
        forall|i: int|
            0 <= i < loopback::cut(bytes, size).len() ==> 0 < (#[trigger] loopback::cut(
                bytes,
                size,
            )[i]).len() <= size,
    decreases bytes.len(),
{
    let pieces = loopback::cut(bytes, size);
    if bytes.len() > size {
        let first = bytes.take(size as int);
        let rest = bytes.skip(size as int);
        law_cut_loses_nothing(rest, size);
        lemma_joined_front(first, loopback::cut(rest, size));
        assert(first + rest =~= bytes);
        assert forall|i: int| 0 <= i < pieces.len() implies 0 < (#[trigger] pieces[i]).len()
            <= size by {
            if i > 0 {
                assert(pieces[i] == loopback::cut(rest, size)[i - 1]);
            }
        }
    } else if bytes.len() > 0 {
        lemma_joined_front(bytes, seq![]);
        assert(pieces =~= seq![bytes] + seq![]);
        assert(joined(pieces) =~= bytes);
    } else {
        assert(joined(pieces) =~= bytes);
    }
}

/// Pieces in hex are taken as those pieces one after another.
proof fn lemma_hex_lines_taken(pieces: Seq<Seq<u8>>)
    ensures
        loopback::lines_taken(pieces.map_values(|piece: Seq<u8>| hex::hex_text(piece))) == Ok::<
            Seq<u8>,
            ErrorView,
        >(joined(pieces)),
    decreases pieces.len(),
{
    let lines = pieces.map_values(|piece: Seq<u8>| hex::hex_text(piece));
    if pieces.len() > 0 {
        lemma_hex_lines_taken(pieces.drop_last());
        assert(lines.drop_last() =~= pieces.drop_last().map_values(
            |piece: Seq<u8>| hex::hex_text(piece),
        ));
        assert(lines.last() == hex::hex_text(pieces.last()));
        hex::law_hex_reads_back(pieces.last());
    }
}

/// Hex can stand on a line.
proof fn lemma_hex_is_one_line(bytes: Seq<u8>)
    ensures
        txt::one_line(hex::hex_text(bytes)),
{
    let s = hex::hex_text(bytes);
    if s.contains('\n') {
        let i = choose|i: int| 0 <= i < s.len() && s[i] == '\n';
    }
}

/// What the TXT strings of pieces in hex, a line each, are taken as.
proof fn lemma_hex_stream_taken(pieces: Seq<Seq<u8>>)
    ensures
        ({
            let strings = pieces.map_values(|piece: Seq<u8>| hex::hex_text(piece));
            let stream = encode_utf8(txt::lined(strings));
            &&& loopback::stream_taken(stream) == Ok::<Seq<u8>, ErrorView>(joined(pieces))
            &&& stream.len() == 0 <==> pieces.len() == 0
        }),
{
    let strings = pieces.map_values(|piece: Seq<u8>| hex::hex_text(piece));
    let s = txt::lined(strings);
    encode_utf8_valid_utf8(s);
    encode_utf8_decode_utf8(s);
    assert forall|i: int| 0 <= i < strings.len() implies txt::one_line(#[trigger] strings[i]) by {
        lemma_hex_is_one_line(pieces[i]);
    }
    txt::lemma_lines_of_lined(strings);
    lemma_hex_lines_taken(pieces);
    if encode_utf8(s).len() == 0 {
        assert(decode_utf8(encode_utf8(s)) =~= seq![]);
    }
    if pieces.len() == 0 {
        assert(s =~= seq![]);
    } else {
        assert(s.len() > 0);
    }
}

/// The first `n` chunks of `payload`.
pub open spec fn first_chunks(payload: Seq<u8>, n: nat) -> Seq<u8> {
    joined(loopback::cut(payload, CHUNK as nat).take(n as int))
}

/// One turn of an exchange: the browser asks for the next chunk, and takes
/// what the responder on `node` that holds `payload` answers from `peer`.
pub open spec fn turn(
    node: TransportView,
    payload: Seq<u8>,
    peer: Seq<char>,
    taking: TakingView,
) -> Result<TakenView, ErrorView> {
    match loopback::stream_answer(node, payload, taking.query()) {
        Ok((answer, _)) => taking.take(transport::arrivals(peer, answer)),
        Err(e) => Err(e),
    }
}

/// The exchange after `turns` turns, or fewer where it ends before.
pub open spec fn exchanged(
    node: TransportView,
    payload: Seq<u8>,
    peer: Seq<char>,
    taking: TakingView,
    turns: nat,
) -> Result<TakenView, ErrorView>
    decreases turns,
{
    if turns == 0 {
        Ok(TakenView::More(taking))
    } else {
        match turn(node, payload, peer, taking) {
            Ok(TakenView::More(more)) => exchanged(
                node,
                payload,
                peer,
                more,
                (turns - 1) as nat,
            ),
            ended => ended,
        }
    }
}

/// A turn takes a chunk: while chunks are left, a turn adds the next to what
/// was taken and the responder goes on; past the end, it gives the whole
/// Stream and the responder is done.
pub proof fn law_turn_takes_a_chunk(
    node: TransportView,
    payload: Seq<u8>,
    peer: Seq<char>,
    taking: TakingView,
)
    requires
        payload.len() <= usize::MAX,
        taking.next <= loopback::cut(payload, CHUNK as nat).len(),
        taking.bytes == first_chunks(payload, taking.next),
    ensures
        ({
            let n = taking.next;
            let count = loopback::cut(payload, CHUNK as nat).len();
            &&& loopback::stream_answer(node, payload, taking.query()) == Ok::<
                (MessageView, bool),
                ErrorView,
            >((loopback::chunk_response(node, payload, 0, n), n == count))
            &&& turn(node, payload, peer, taking) == Ok::<TakenView, ErrorView>(
                if n < count {
                    TakenView::More(
                        TakingView { next: n + 1, bytes: first_chunks(payload, n + 1), ..taking },
                    )
                } else {
                    TakenView::Whole(
                        ArrivedView { origin_uri: taking.origin_uri, bytes: payload },
                    )
                },
            )
        }),
{
    assert(CHUNK == 4000);
    let n = taking.next;
    let chunks = loopback::cut(payload, CHUNK as nat);
    lemma_chunk_count(payload);
    let strings = loopback::chunk_strings(payload, n as int);
    law_query_names_its_chunk(node, n, strings);
    lemma_exchange_tellable(node, n, strings);
    let answered = loopback::kind_service(node, loopback::chunk_instance(n), strings);
    lemma_response_arrives(peer, 0, answered);
    let found = seq![transport::arrival(peer, answered)];
    let stream = found[0].bytes;
    assert(taking.query().questions[0].name == loopback::chunk_name(n));
    law_cut_loses_nothing(payload, CHUNK as nat);
    if n < chunks.len() {
        let pieces = loopback::cut(chunks[n as int], STRING as nat);
        lemma_hex_stream_taken(pieces);
        law_cut_loses_nothing(chunks[n as int], STRING as nat);
        assert(pieces.len() > 0);
        assert(found.skip(1) =~= seq![]);
        assert(loopback::all_taken(found, taking.bytes) == loopback::all_taken(
            found.skip(1),
            taking.bytes + chunks[n as int],
        ));
        assert(chunks.take(n as int + 1).drop_last() =~= chunks.take(n as int));
        assert(first_chunks(payload, n + 1) == taking.bytes + chunks[n as int]);
    } else {
        lemma_hex_stream_taken(seq![]);
        assert(strings =~= Seq::<Seq<u8>>::empty().map_values(
            |piece: Seq<u8>| hex::hex_text(piece),
        ));
        assert(stream.len() == 0);
        assert(chunks.take(n as int) =~= chunks);
    }
}

/// There are no more chunks than bytes, and fewer where there are many.
proof fn lemma_chunk_count(payload: Seq<u8>)
    ensures
        loopback::cut(payload, CHUNK as nat).len() <= 1 + payload.len() / CHUNK as nat,
    decreases payload.len(),
{
    assert(CHUNK == 4000);
    if payload.len() > CHUNK {
        lemma_chunk_count(payload.skip(CHUNK as int));
    }
}

proof fn lemma_exchanged(
    node: TransportView,
    payload: Seq<u8>,
    peer: Seq<char>,
    taking: TakingView,
)
    requires
        payload.len() <= usize::MAX,
        taking.next <= loopback::cut(payload, CHUNK as nat).len(),
        taking.bytes == first_chunks(payload, taking.next),
    ensures
        exchanged(
            node,
            payload,
            peer,
            taking,
            (loopback::cut(payload, CHUNK as nat).len() + 1 - taking.next) as nat,
        ) == Ok::<TakenView, ErrorView>(
            TakenView::Whole(ArrivedView { origin_uri: taking.origin_uri, bytes: payload }),
        ),
    decreases loopback::cut(payload, CHUNK as nat).len() - taking.next,
{
    law_turn_takes_a_chunk(node, payload, peer, taking);
    if taking.next < loopback::cut(payload, CHUNK as nat).len() {
        let more = TakingView {
            next: taking.next + 1,
            bytes: first_chunks(payload, taking.next + 1),
            ..taking
        };
        lemma_exchanged(node, payload, peer, more);
    }
}

/// A Stream arrives whole: a browser that takes the announcement of a
/// responder holding any payload asks that responder, and after one turn per
/// chunk and one past the end has the payload, byte for byte, with the origin
/// of the announcement.
pub proof fn law_stream_arrives_whole(node: TransportView, payload: Seq<u8>, peer: Seq<char>)
    requires
        payload.len() <= usize::MAX,
        peer.len() > 0,
        !peer.contains('/'),
    ensures
        ({
            let announced = transport::arrivals(peer, loopback::stream_announced(node));
            let origin_uri = transport::arrival(
                peer,
                loopback::kind_service(node, INSTANCE@, seq![]),
            ).origin_uri;
            let turns = loopback::cut(payload, CHUNK as nat).len() + 1;
            &&& loopback::taking_begun(announced) matches Ok(taking)
            &&& taking.responder == peer
            &&& exchanged(node, payload, peer, taking, turns) == Ok::<TakenView, ErrorView>(
                TakenView::Whole(ArrivedView { origin_uri, bytes: payload }),
            )
        }),
{
    let announcing = loopback::kind_service(node, INSTANCE@, seq![]);
    lemma_exchange_tellable(node, 0, seq![]);
    lemma_response_arrives(peer, 0, announcing);
    law_origin_names_the_peer(peer, announcing);
    let taking = TakingView {
        origin_uri: transport::arrival(peer, announcing).origin_uri,
        responder: peer,
        next: 0,
        bytes: seq![],
    };
    assert(loopback::cut(payload, CHUNK as nat).take(0) =~= seq![]);
    assert(first_chunks(payload, 0) =~= seq![]);
    lemma_exchanged(node, payload, peer, taking);
}

/// How many stretches of [`STRING`] bytes a chunk makes.
proof fn lemma_string_count(bytes: Seq<u8>, n: nat)
    requires
        bytes.len() <= n * STRING,
    ensures
        loopback::cut(bytes, STRING as nat).len() <= n,
    decreases bytes.len(),
{
    if bytes.len() > STRING {
        lemma_string_count(bytes.skip(STRING as int), (n - 1) as nat);
    }
}

/// The lines of short strings are short.
proof fn lemma_lined_short(strings: Seq<Seq<char>>, most: nat)
    requires
        forall|i: int|
            0 <= i < strings.len() ==> is_ascii_chars(#[trigger] strings[i]) && strings[i].len()
                < most,
    ensures
        is_ascii_chars(txt::lined(strings)),
        txt::lined(strings).len() <= most * strings.len(),
    decreases strings.len(),
{
    if strings.len() > 0 {
        let fewer = strings.drop_last();
        let n = fewer.len();
        assert forall|i: int| 0 <= i < fewer.len() implies is_ascii_chars(#[trigger] fewer[i])
            && fewer[i].len() < most by {
            assert(fewer[i] == strings[i]);
        }
        lemma_lined_short(fewer, most);
        assert(strings.last() == strings[strings.len() - 1]);
        assert(most * (n + 1) == most * n + most) by (nonlinear_arith);
    } else {
        assert(most * 0 == 0) by (nonlinear_arith);
    }
}

/// A chunk fits its strings: no chunk takes more than 32 TXT strings, none of
/// them is empty or over the 255 bytes that a string holds, and with one byte
/// more for each they take at most 8032 of the bytes that mDNS sends.
pub proof fn law_chunk_fits_its_strings(payload: Seq<u8>, n: int)
    ensures
        loopback::chunk_strings(payload, n).len() <= 32,
        forall|i: int|
            0 <= i < loopback::chunk_strings(payload, n).len() ==> 0 < encode_utf8(
                #[trigger] loopback::chunk_strings(payload, n)[i],
            ).len() <= 255,
        encode_utf8(txt::lined(loopback::chunk_strings(payload, n))).len() <= 8032
            < message::MAX_MESSAGE,
{
    assert(CHUNK == 4000);
    let chunks = loopback::cut(payload, CHUNK as nat);
    let strings = loopback::chunk_strings(payload, n);
    law_cut_loses_nothing(payload, CHUNK as nat);
    if 0 <= n < chunks.len() {
        let pieces = loopback::cut(chunks[n], STRING as nat);
        lemma_string_count(chunks[n], 32);
        law_cut_loses_nothing(chunks[n], STRING as nat);
        assert forall|i: int| 0 <= i < strings.len() implies is_ascii_chars(#[trigger] strings[i])
            && 0 < strings[i].len() < 251 && encode_utf8(strings[i]).len() == strings[i].len() by {
            assert(strings[i] == hex::hex_text(pieces[i]));
            assert(is_ascii_chars(strings[i]));
            is_ascii_chars_encode_utf8(strings[i]);
        }
    }
    lemma_lined_short(strings, 251);
    is_ascii_chars_encode_utf8(txt::lined(strings));
}

} // verus!
