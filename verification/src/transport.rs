//! A node on the link: what it binds, asks, announces and takes.

use std::time::Duration;

use vstd::prelude::*;
use vstd::slice::{slice_subrange, slice_to_vec};
use vstd::utf8::{decode_utf8, encode_utf8, valid_utf8};

use crate::address;
use crate::address::{IpAddr, Ipv4Addr};
use crate::error;
use crate::error::{Error, ErrorView};
use crate::message;
use crate::message::{Message, MessageView, RecordView};
use crate::service;
use crate::service::{Service, ServiceView};
use crate::text;
use crate::txt;

verus! {

/// The multicast group and port mDNS lives on.
pub const GROUP: &'static str = "224.0.0.251:5353";

/// How long an announced record lives, RFC 6762 section 10.
pub const TTL: u32 = 120;

// ------------------------------------------------------------------ types

/// A Stream that arrived, and the URI of where it came from.
#[derive(Clone, Debug, PartialEq, Eq)]
pub struct Arrived {
    pub origin_uri: String,
    pub bytes: Vec<u8>,
}

/// An [`Arrived`] with what its origin spells.
#[verifier::ext_equal]
pub struct ArrivedView {
    pub origin_uri: Seq<char>,
    pub bytes: Seq<u8>,
}

impl View for Arrived {
    type V = ArrivedView;

    open spec fn view(&self) -> ArrivedView {
        ArrivedView { origin_uri: self.origin_uri@, bytes: self.bytes@ }
    }
}

/// Each of `arrived` with what its origin spells.
pub open spec fn arrived_view(arrived: Seq<Arrived>) -> Seq<ArrivedView> {
    arrived.map_values(|a: Arrived| a@)
}

/// What a node listens at: the address its socket binds, and the group that
/// the socket then joins.
#[derive(Clone, Debug, PartialEq, Eq)]
pub struct Binding {
    pub address: String,
    pub group: Option<Ipv4Addr>,
}

/// A node on the link.
#[derive(Clone)]
pub struct MdnsTransport {
    bind: String,
    group: String,
    browsing: Option<String>,
    host: String,
    addresses: Vec<IpAddr>,
    timeout: Option<Duration>,
}

/// A [`MdnsTransport`] with what its text spells.
#[verifier::ext_equal]
pub struct TransportView {
    /// Where the node listens.
    pub bind: Seq<char>,
    /// Where its queries go.
    pub group: Seq<char>,
    /// The kind of service it asks for, where it asks.
    pub browsing: Option<Seq<char>>,
    /// The host its services run on.
    pub host: Seq<char>,
    /// The addresses of that host.
    pub addresses: Seq<IpAddr>,
    /// How long it waits for a message.
    pub timeout: Option<Duration>,
}

impl View for MdnsTransport {
    type V = TransportView;

    closed spec fn view(&self) -> TransportView {
        TransportView {
            bind: self.bind@,
            group: self.group@,
            browsing: match self.browsing {
                Some(kind) => Some(kind@),
                None => None,
            },
            host: self.host@,
            addresses: self.addresses@,
            timeout: self.timeout,
        }
    }
}

// --------------------------------------------------------------- addresses

/// `host` in the domain, where it is placed unless already there.
pub open spec fn placed_host(host: Seq<char>) -> Seq<char> {
    let bare = text::undotted(host);
    if text::ends(text::lowered(bare), ".local"@) {
        bare.push('.')
    } else {
        bare.push('.') + service::DOMAIN@
    }
}

/// The group and the `0.0.0.0:port` to bind for it, where `bind` is a
/// multicast address.
pub open spec fn group_bound(bind: Seq<char>) -> Option<(Ipv4Addr, Seq<char>)> {
    match address::socket_v4_text(bind) {
        Some((ip, port)) if ip.multicast() => Some(
            (ip, "0.0.0.0:"@ + text::decimal(port as nat)),
        ),
        _ => None,
    }
}

/// The group and the `0.0.0.0:port` to bind for it, where `bind` is a
/// multicast address.
#[must_use]
pub fn multicast_group(bind: &str) -> (r: Option<(Ipv4Addr, String)>)
    ensures
        r is Some <==> group_bound(bind@) is Some,
        r matches Some((group, port)) ==> group_bound(bind@) == Some((group, port@)),
{
    match address::socket_v4(bind) {
        Some((ip, port)) => {
            if ip.is_multicast() {
                let mut any = "0.0.0.0:".to_owned();
                text::push_decimal(&mut any, port as u64);
                Some((ip, any))
            } else {
                None
            }
        },
        None => None,
    }
}

// ----------------------------------------------------------------- targets

/// The authority and the path of `mdns://authority/path`, where `uri` is one.
pub open spec fn uri_parts(uri: Seq<char>) -> Option<(Seq<char>, Seq<char>)> {
    let rest = uri.skip("mdns://"@.len() as int);
    let at = text::first_at(rest, '/') as int;
    if text::starts(uri, "mdns://"@) && at < rest.len() {
        Some((rest.take(at), rest.skip(at + 1)))
    } else {
        None
    }
}

/// The authority and the path of `mdns://authority/path`, where `uri` is one.
pub fn split_uri(uri: &str) -> (parts: Option<(String, String)>)
    ensures
        parts is Some <==> uri_parts(uri@) is Some,
        parts matches Some((authority, path)) ==> uri_parts(uri@) == Some((authority@, path@)),
{
    let chars = text::chars_of(uri);
    match text::after_prefix(chars.as_slice(), "mdns://") {
        Some(rest) => {
            let at = text::find(rest, '/');
            if at >= rest.len() {
                return None;
            }
            let authority = slice_subrange(rest, 0, at);
            let path = slice_subrange(rest, at + 1, rest.len());
            assert(authority@ =~= rest@.take(at as int));
            assert(path@ =~= rest@.skip(at + 1));
            Some((text::spelled(authority), text::spelled(path)))
        },
        None => None,
    }
}

/// The peer an origin `mdns://peer/...` names.
pub open spec fn origin_peer(origin: Seq<char>) -> Result<Seq<char>, ErrorView> {
    match uri_parts(origin) {
        Some((peer, _)) if peer.len() > 0 => Ok(peer),
        _ => Err(ErrorView::NoPeer(origin)),
    }
}

/// The peer an origin `mdns://peer/...` names.
pub fn peer_of(origin: &str) -> (peer: Result<String, Error>)
    ensures
        error::outcome(peer) == origin_peer(origin@),
{
    match split_uri(origin) {
        Some((peer, _)) => {
            if peer.as_str().is_empty() {
                Err(Error::NoPeer(origin.to_owned()))
            } else {
                Ok(peer)
            }
        },
        None => Err(Error::NoPeer(origin.to_owned())),
    }
}

/// The port that `pair` gives, where it is `port=` and a port.
pub open spec fn port_given(pair: Seq<char>) -> Option<u16> {
    if text::starts(pair, "port="@) {
        match text::number(pair.skip("port="@.len() as int), u16::MAX as nat) {
            Some(port) => Some(port as u16),
            None => None,
        }
    } else {
        None
    }
}

/// The port that the first of `pairs` to give one gives.
pub open spec fn first_port(pairs: Seq<Seq<char>>) -> Option<u16>
    decreases pairs.len(),
{
    if pairs.len() == 0 {
        None
    } else if port_given(pairs[0]) is Some {
        port_given(pairs[0])
    } else {
        first_port(pairs.skip(1))
    }
}

/// The port that the first of the pairs in `query` to give one gives.
fn port_in(query: &[char]) -> (r: Option<u16>)
    ensures
        r == first_port(text::split(query@, '&')),
{
    let pairs = text::pieces(query, '&');
    let ghost all = text::parts_view(pairs@);
    assert(all.skip(0) =~= all);
    for at in 0..pairs.len()
        invariant
            all == text::parts_view(pairs@),
            all == text::split(query@, '&'),
            first_port(all.skip(at as int)) == first_port(all),
    {
        assert(all.skip(at as int)[0] == pairs@[at as int]@);
        assert(all.skip(at as int).skip(1) =~= all.skip(at + 1));
        if let Some(rest) = text::after_prefix(pairs[at], "port=") {
            if let Some(port) = text::number_of(rest, 65535) {
                return Some(port as u16);
            }
        }
    }
    None
}

/// The service that the path of a target names, on the host of `node`.
pub open spec fn path_service(
    node: TransportView,
    path: Seq<char>,
    target: Seq<char>,
) -> Result<ServiceView, ErrorView> {
    let at = text::first_at(path, '?') as int;
    let name = text::undotted(path.take(at)).push('.');
    let query = if at < path.len() {
        path.skip(at + 1)
    } else {
        seq![]
    };
    match (service::name_parts(name), first_port(text::split(query, '&'))) {
        (Some((instance, kind)), Some(port)) => Ok(
            ServiceView {
                instance,
                kind,
                port,
                txt: seq![],
                host: node.host,
                addresses: node.addresses,
            },
        ),
        (Some(_), None) => Err(ErrorView::NoPort(target)),
        (None, _) => Err(ErrorView::NotInstance(name)),
    }
}

/// The address that `target` goes to and the service it names, on the host
/// of `node`.
pub open spec fn target_service(node: TransportView, target: Seq<char>) -> Result<
    (Seq<char>, ServiceView),
    ErrorView,
> {
    match uri_parts(target) {
        Some((address, path)) => match path_service(node, path, target) {
            Ok(service) => Ok((address, service)),
            Err(e) => Err(e),
        },
        None => Err(ErrorView::NoService(target)),
    }
}

/// The announcement of the service that `target` names, with the TXT strings
/// `txt`, and the address it goes to.
pub open spec fn announcement(
    node: TransportView,
    target: Seq<char>,
    txt: Seq<Seq<char>>,
) -> Result<(Seq<char>, MessageView), ErrorView> {
    match target_service(node, target) {
        Ok((address, service)) => Ok(
            (address, MessageView::response(0, ServiceView { txt, ..service }.records(TTL))),
        ),
        Err(e) => Err(e),
    }
}

// ---------------------------------------------------------------- arrivals

/// `service` as it arrives from `peer`: its TXT strings as lines, from
/// `mdns://peer/<instance>.<kind>.local?port=<port>&host=<host>`.
pub open spec fn arrival(peer: Seq<char>, service: ServiceView) -> ArrivedView {
    ArrivedView {
        origin_uri: "mdns://"@ + peer + "/"@ + text::undotted(service.full_name()) + "?port="@
            + text::decimal(service.port as nat) + "&host="@ + service.host,
        bytes: encode_utf8(txt::lined(service.txt)),
    }
}

/// What arrives from `peer` with `message`: every service of a response, and
/// nothing of a query.
pub open spec fn arrivals(peer: Seq<char>, message: MessageView) -> Seq<ArrivedView> {
    if message.response {
        service::services_in(message.records).map_values(|s: ServiceView| arrival(peer, s))
    } else {
        seq![]
    }
}

/// `service` as it arrives from `peer`.
pub fn arrived(peer: &str, service: &Service) -> (r: Arrived)
    ensures
        r@ == arrival(peer@, service@),
{
    let name = text::chars_of(service.full_name().as_str());
    let name = text::spelled(text::without_dots(name.as_slice()));
    let mut origin_uri = "mdns://".to_owned();
    origin_uri.append(peer);
    origin_uri.append("/");
    origin_uri.append(name.as_str());
    origin_uri.append("?port=");
    text::push_decimal(&mut origin_uri, service.port as u64);
    origin_uri.append("&host=");
    origin_uri.append(service.host.as_str());
    Arrived { origin_uri, bytes: service.txt_lines() }
}

// -------------------------------------------------------------------- node

impl MdnsTransport {
    /// Listen at `bind`: the group `224.0.0.251:5353` for what the link
    /// announces, or a unicast address for answers to its own query.
    #[must_use]
    pub fn new(bind: &str) -> (node: Self)
        ensures
            node@ == (TransportView {
                bind: bind@,
                group: GROUP@,
                browsing: None,
                host: "xmip.local."@,
                addresses: seq![],
                timeout: None,
            }),
    {
        let node = Self {
            bind: bind.to_owned(),
            group: GROUP.to_owned(),
            browsing: None,
            host: "xmip.local.".to_owned(),
            addresses: Vec::new(),
            timeout: None,
        };
        assert(node@.addresses =~= seq![]);
        node
    }

    /// Ask for `kind` - `_ipp._tcp` - before taking answers.
    #[must_use]
    pub fn browsing(self, kind: &str) -> (node: Self)
        ensures
            node@ == (TransportView { browsing: Some(text::undotted(kind@)), ..self@ }),
    {
        let chars = text::chars_of(kind);
        let kind = text::spelled(text::without_dots(chars.as_slice()));
        Self { browsing: Some(kind), ..self }
    }

    /// Where a query goes; the group unless said otherwise.
    #[must_use]
    pub fn asking(self, address: &str) -> (node: Self)
        ensures
            node@ == (TransportView { group: address@, ..self@ }),
    {
        Self { group: address.to_owned(), ..self }
    }

    /// The host an announced service runs on - `gateway`, placed in
    /// `local.` unless already there - and its addresses.
    #[must_use]
    pub fn as_host(self, host: &str, addresses: &[IpAddr]) -> (node: Self)
        ensures
            node@ == (TransportView {
                host: placed_host(host@),
                addresses: addresses@,
                ..self@
            }),
    {
        let chars = text::chars_of(host);
        let bare = text::without_dots(chars.as_slice());
        let lowered = text::to_lowered(bare);
        let mut host = text::spelled(bare);
        host.push('.');
        if text::before_suffix(lowered.as_slice(), ".local").is_none() {
            host.append(service::DOMAIN);
        }
        Self { host, addresses: slice_to_vec(addresses), ..self }
    }

    /// Give up waiting for a message after `timeout`.
    #[must_use]
    pub fn timing_out_after(self, timeout: Duration) -> (node: Self)
        ensures
            node@ == (TransportView { timeout: Some(timeout), ..self@ }),
    {
        Self { timeout: Some(timeout), ..self }
    }

    /// What this transport is called.
    pub fn name(&self) -> (name: &'static str)
        ensures
            name@ == "mdns"@,
    {
        "mdns"
    }

    /// Where queries go.
    pub fn group(&self) -> (group: &str)
        ensures
            group@ == self@.group,
    {
        self.group.as_str()
    }

    /// The host announced services run on.
    pub fn host(&self) -> (host: &str)
        ensures
            host@ == self@.host,
    {
        self.host.as_str()
    }

    /// The addresses of the host announced services run on.
    pub fn addresses(&self) -> (addresses: &Vec<IpAddr>)
        ensures
            addresses@ == self@.addresses,
    {
        &self.addresses
    }

    /// How long to wait for a message.
    pub fn timeout(&self) -> (timeout: Option<Duration>)
        ensures
            timeout == self@.timeout,
    {
        self.timeout
    }

    /// What to bind: the port on every interface, and the group to join, when
    /// the bind address is a multicast one; else the bind address itself.
    pub fn bind_udp(&self) -> (binding: Binding)
        ensures
            match group_bound(self@.bind) {
                Some((group, any)) => binding.address@ == any && binding.group == Some(group),
                None => binding.address@ == self@.bind && binding.group is None,
            },
    {
        match multicast_group(self.bind.as_str()) {
            Some((group, address)) => Binding { address, group: Some(group) },
            None => Binding { address: self.bind.clone(), group: None },
        }
    }

    /// The query for the kind being browsed, where there is one.
    pub fn query(&self) -> (query: Option<Message>)
        ensures
            query is Some <==> self@.browsing is Some,
            query matches Some(q) ==> q@ == MessageView::query(
                self@.browsing->0.push('.') + service::DOMAIN@,
                message::TYPE_PTR,
            ),
    {
        match &self.browsing {
            Some(kind) => {
                let mut name = kind.clone();
                name.push('.');
                name.append(service::DOMAIN);
                Some(Message::query(name.as_str(), message::TYPE_PTR))
            },
            None => None,
        }
    }

    /// The services one message from `peer` names. Nothing is taken of a
    /// query, nor of a response naming no service: the next message is to be
    /// awaited.
    pub fn receive_datagram(&self, peer: &str, message: &Message) -> (found: Option<Vec<Arrived>>)
        ensures
            found is Some <==> arrivals(peer@, message@).len() > 0,
            found matches Some(f) ==> arrived_view(f@) == arrivals(peer@, message@),
    {
        if !message.is_response() {
            return None;
        }
        let services = Service::from_records(message.records().as_slice());
        let ghost all = arrivals(peer@, message@);
        let mut found: Vec<Arrived> = Vec::new();
        for at in 0..services.len()
            invariant
                all == service::services_view(services@).map_values(
                    |s: ServiceView| arrival(peer@, s),
                ),
                arrived_view(found@) == all.take(at as int),
        {
            let ghost before = arrived_view(found@);
            let one = arrived(peer, &services[at]);
            found.push(one);
            assert(arrived_view(found@) =~= before.push(one@));
            assert(arrived_view(found@) =~= all.take(at + 1));
        }
        assert(all.take(services.len() as int) =~= all);
        if found.len() > 0 {
            Some(found)
        } else {
            None
        }
    }

    /// The service that the path of `target` names, on this host and without
    /// TXT strings.
    ///
    /// Refused: a path that is not `<instance>.<kind>.local`, and one without
    /// a port.
    pub fn service_named(&self, path: &str, target: &str) -> (service: Result<Service, Error>)
        ensures
            error::outcome(service) == path_service(self@, path@, target@),
    {
        let chars = text::chars_of(path);
        let chars = chars.as_slice();
        let at = text::find(chars, '?');
        proof {
            text::lemma_first_at(chars@, '?');
        }
        assert(chars@.subrange(0, at as int) =~= path@.take(at as int));
        let mut name = text::spelled(text::without_dots(slice_subrange(chars, 0, at)));
        name.push('.');
        let query = if at < chars.len() {
            slice_subrange(chars, at + 1, chars.len())
        } else {
            slice_subrange(chars, at, at)
        };
        assert(query@ =~= if at < path@.len() {
            path@.skip(at + 1)
        } else {
            seq![]
        });
        let (instance, kind) = match Service::split_name(name.as_str()) {
            Some(parts) => parts,
            None => return Err(Error::NotInstance(name)),
        };
        let port = match port_in(query) {
            Some(port) => port,
            None => return Err(Error::NoPort(target.to_owned())),
        };
        let service = Service {
            instance,
            kind,
            port,
            txt: Vec::new(),
            host: self.host.clone(),
            addresses: slice_to_vec(self.addresses.as_slice()),
        };
        assert(service@.txt =~= seq![]);
        Ok(service)
    }

    /// The address `target` goes to and the service it names, which has no
    /// TXT strings yet.
    ///
    /// Refused: a target without `/<instance>.<kind>.local`, and one without
    /// a port.
    pub fn service_at(&self, target: &str) -> (service: Result<(String, Service), Error>)
        ensures
            error::outcome(service) == target_service(self@, target@),
    {
        match split_uri(target) {
            Some((address, path)) => match self.service_named(path.as_str(), target) {
                Ok(service) => Ok((address, service)),
                Err(e) => Err(e),
            },
            None => Err(Error::NoService(target.to_owned())),
        }
    }

    /// The address `target` goes to, and the announcement to send there: of
    /// the service it names, with the TXT strings `txt`.
    pub fn announce(&self, target: &str, txt: Vec<String>) -> (sent: Result<
        (String, Message),
        Error,
    >)
        ensures
            error::outcome(sent) == announcement(self@, target@, text::spellings(txt@)),
    {
        match self.service_at(target) {
            Ok((address, service)) => {
                let service = Service { txt, ..service };
                Ok((address, Message::response(0, service.records(TTL))))
            },
            Err(e) => Err(e),
        }
    }

    /// The address `target` goes to, and the announcement to send there: of
    /// the service it names, its TXT strings being what `bytes` name.
    pub fn send(&self, target: &str, bytes: &[u8]) -> (sent: Result<(String, Message), Error>)
        ensures
            error::outcome(sent) == announcement(
                self@,
                target@,
                txt::txt_named(txt::lossy_text(bytes@)),
            ),
            valid_utf8(bytes@) ==> error::outcome(sent) == announcement(
                self@,
                target@,
                txt::txt_named(decode_utf8(bytes@)),
            ),
    {
        self.announce(target, Service::parse_txt(bytes))
    }
}

// ------------------------------------------------------------------ laws

/// What arrived is told one by one, in order and with none left out, and with
/// all of it.
pub proof fn law_arrivals_are_told_one_by_one(arrived: Seq<Arrived>, i: int)
    ensures
        arrived_view(arrived).len() == arrived.len(),
        0 <= i < arrived.len() ==> arrived_view(arrived)[i].origin_uri == arrived[i].origin_uri@
            && arrived_view(arrived)[i].bytes == arrived[i].bytes@,
{
}

/// A host is placed in the domain by its name without the dots it ends in:
/// where that ends in `.local`, whatever the case of its letters, a dot ends
/// it, and else `.local.` does.
pub proof fn law_host_is_placed_in_the_domain(bare: Seq<char>, dots: Seq<char>)
    requires
        bare.len() > 0 ==> bare.last() != '.',
        forall|i: int| 0 <= i < dots.len() ==> dots[i] == '.',
    ensures
        placed_host(bare + dots) == if bare.len() >= 6 && text::same_name(
            bare.skip(bare.len() - 6),
            ".local"@,
        ) {
            bare + "."@
        } else {
            bare + ".local."@
        },
{
    reveal_strlit("local.");
    reveal_strlit(".local");
    reveal_strlit(".local.");
    reveal_strlit(".");
    text::law_only_last_dots_go(bare, dots);
    assert(text::lowered(".local"@) =~= ".local"@);
    assert(bare.push('.') =~= bare + "."@);
    assert(bare.push('.') + service::DOMAIN@ =~= bare + ".local."@);
    if bare.len() >= 6 {
        let at = bare.len() - 6;
        assert(text::lowered(bare).skip(at) =~= text::lowered(bare.skip(at)));
    }
}

/// A group is bound just where the bind address is an IPv4 address in 224/4
/// and a port: that group, and the port on every interface.
pub proof fn law_groups_are_bound_by_their_port(bind: Seq<char>, ip: Ipv4Addr, port: u16)
    ensures
        address::socket_v4_text(bind) == Some((ip, port)) ==> group_bound(bind) == if 224 <= ip.0
            <= 239 {
            Some((ip, "0.0.0.0:"@ + text::decimal(port as nat)))
        } else {
            None
        },
        address::socket_v4_text(bind) is None ==> group_bound(bind) is None,
{
}

/// A target parts just where it is `mdns://`, an authority without a slash,
/// a slash and a path.
pub proof fn law_uri_is_authority_and_path(
    uri: Seq<char>,
    authority: Seq<char>,
    path: Seq<char>,
)
    ensures
        uri_parts(uri) == Some((authority, path)) <==> {
            &&& !authority.contains('/')
            &&& uri == "mdns://"@ + authority + "/"@ + path
        },
{
    reveal_strlit("mdns://");
    reveal_strlit("/");
    let whole = "mdns://"@ + authority + "/"@ + path;
    if !authority.contains('/') && uri == whole {
        text::lemma_parted(authority, '/', path);
        assert(uri.take(7) =~= "mdns://"@);
        assert(uri.skip(7) =~= authority.push('/') + path);
    }
    if uri_parts(uri) == Some((authority, path)) {
        let rest = uri.skip(7);
        let at = text::first_at(rest, '/') as int;
        text::lemma_first_at(rest, '/');
        assert(rest =~= authority.push('/') + path);
        assert(uri =~= uri.take(7) + rest);
        assert(uri =~= whole);
    }
}

/// An origin names the peer between `mdns://` and the next slash, where there
/// is one; an origin without either, or with nothing between them, is refused
/// by its own text.
pub proof fn law_origin_names_what_is_before_its_path(
    origin: Seq<char>,
    peer: Seq<char>,
    path: Seq<char>,
)
    ensures
        !peer.contains('/') && origin == "mdns://"@ + peer + "/"@ + path ==> origin_peer(origin)
            == if peer.len() > 0 {
            Ok::<Seq<char>, ErrorView>(peer)
        } else {
            Err(ErrorView::NoPeer(origin))
        },
        !text::starts(origin, "mdns://"@) || !origin.skip(7).contains('/') ==> origin_peer(origin)
            == Err::<Seq<char>, ErrorView>(ErrorView::NoPeer(origin)),
{
    reveal_strlit("mdns://");
    law_uri_is_authority_and_path(origin, peer, path);
    let rest = origin.skip(7);
    text::lemma_first_at(rest, '/');
    if text::first_at(rest, '/') < rest.len() {
        assert(rest.contains(rest[text::first_at(rest, '/') as int]));
    }
}

/// The first of several pairs to give a port gives it, wherever it stands.
proof fn lemma_first_port(pairs: Seq<Seq<char>>, i: int)
    requires
        0 <= i <= pairs.len(),
        i < pairs.len() ==> port_given(pairs[i]) is Some,
        forall|j: int| 0 <= j < i ==> port_given(#[trigger] pairs[j]) is None,
    ensures
        first_port(pairs) == if i < pairs.len() {
            port_given(pairs[i])
        } else {
            None
        },
    decreases pairs.len(),
{
    if i > 0 {
        assert(port_given(pairs[0]) is None);
        let rest = pairs.skip(1);
        assert forall|j: int| 0 <= j < i - 1 implies port_given(#[trigger] rest[j]) is None by {
            assert(rest[j] == pairs[j + 1]);
        }
        lemma_first_port(rest, i - 1);
    }
}

/// What the path of a target with a query comes to.
proof fn lemma_path_asked(
    node: TransportView,
    name: Seq<char>,
    query: Seq<char>,
    target: Seq<char>,
)
    requires
        !name.contains('?'),
    ensures
        path_service(node, name.push('?') + query, target) == match (
            service::name_parts(text::undotted(name).push('.')),
            first_port(text::split(query, '&')),
        ) {
            (None, _) => Err::<ServiceView, ErrorView>(
                ErrorView::NotInstance(text::undotted(name).push('.')),
            ),
            (Some(_), None) => Err(ErrorView::NoPort(target)),
            (Some((instance, kind)), Some(port)) => Ok(
                ServiceView {
                    instance,
                    kind,
                    port,
                    txt: seq![],
                    host: node.host,
                    addresses: node.addresses,
                },
            ),
        },
{
    text::lemma_parted(name, '?', query);
}

/// What the path of a target without a query comes to.
proof fn lemma_path_plain(node: TransportView, name: Seq<char>, target: Seq<char>)
    requires
        !name.contains('?'),
    ensures
        path_service(node, name, target) == match service::name_parts(
            text::undotted(name).push('.'),
        ) {
            None => Err::<ServiceView, ErrorView>(
                ErrorView::NotInstance(text::undotted(name).push('.')),
            ),
            Some(_) => Err(ErrorView::NoPort(target)),
        },
{
    let none = Seq::<char>::empty();
    text::law_found_where_first(name, '?', none);
    assert(name.take(name.len() as int) =~= name);
    assert(first_port(text::split(none, '&')) is None) by {
        reveal_strlit("port=");
        text::law_split_wherever_it_stands(none, '&', none);
        let pairs = text::split(none, '&');
        assert(pairs =~= seq![none]);
        lemma_first_port(pairs, 1);
    }
}

/// The authority and path of a target with a query.
proof fn lemma_uri_asked(address: Seq<char>, name: Seq<char>, query: Seq<char>)
    requires
        !address.contains('/'),
    ensures
        uri_parts("mdns://"@ + address + "/"@ + name + "?"@ + query) == Some(
            (address, name.push('?') + query),
        ),
{
    reveal_strlit("?");
    let front = "mdns://"@ + address + "/"@;
    let path = name.push('?') + query;
    let asked = front + name + "?"@ + query;
    assert(asked =~= front + path);
    law_uri_is_authority_and_path(asked, address, path);
}

/// What a target with a query comes to.
proof fn lemma_target_asked(
    node: TransportView,
    address: Seq<char>,
    name: Seq<char>,
    query: Seq<char>,
)
    requires
        !address.contains('/'),
        !name.contains('?'),
    ensures
        ({
            let asked = "mdns://"@ + address + "/"@ + name + "?"@ + query;
            let full = text::undotted(name).push('.');
            target_service(node, asked) == match (
                service::name_parts(full),
                first_port(text::split(query, '&')),
            ) {
                (None, _) => Err::<(Seq<char>, ServiceView), ErrorView>(
                    ErrorView::NotInstance(full),
                ),
                (Some(_), None) => Err(ErrorView::NoPort(asked)),
                (Some((instance, kind)), Some(port)) => Ok(
                    (
                        address,
                        ServiceView {
                            instance,
                            kind,
                            port,
                            txt: seq![],
                            host: node.host,
                            addresses: node.addresses,
                        },
                    ),
                ),
            }
        }),
{
    let asked = "mdns://"@ + address + "/"@ + name + "?"@ + query;
    lemma_uri_asked(address, name, query);
    lemma_path_asked(node, name, query, asked);
}

/// What a target without a query comes to.
proof fn lemma_target_plain(node: TransportView, address: Seq<char>, name: Seq<char>)
    requires
        !address.contains('/'),
        !name.contains('?'),
    ensures
        ({
            let plain = "mdns://"@ + address + "/"@ + name;
            let full = text::undotted(name).push('.');
            target_service(node, plain) == match service::name_parts(full) {
                None => Err::<(Seq<char>, ServiceView), ErrorView>(ErrorView::NotInstance(full)),
                Some(_) => Err(ErrorView::NoPort(plain)),
            }
        }),
{
    let plain = "mdns://"@ + address + "/"@ + name;
    law_uri_is_authority_and_path(plain, address, name);
    lemma_path_plain(node, name, plain);
}

/// The first pair to give a port counts: a target whose query has a pair that
/// is `port=` and a port, wherever among its pairs, names the service of that
/// port, where no pair before it gives one. It is the instance and kind of
/// the path, on the host of the node, and goes to the address before the
/// path. A path that is no instance name is refused, whatever the query.
pub proof fn law_first_port_counts(
    node: TransportView,
    address: Seq<char>,
    name: Seq<char>,
    query: Seq<char>,
    i: int,
    port: u16,
)
    requires
        !address.contains('/'),
        !name.contains('?'),
        0 <= i < text::split(query, '&').len(),
        text::starts(text::split(query, '&')[i], "port="@),
        text::number(text::split(query, '&')[i].skip(5), 65535) == Some(port as nat),
        forall|j: int|
            0 <= j < i ==> !(text::starts(#[trigger] text::split(query, '&')[j], "port="@)
                && text::number(text::split(query, '&')[j].skip(5), 65535) is Some),
    ensures
        target_service(node, "mdns://"@ + address + "/"@ + name + "?"@ + query)
            == match service::name_parts(text::undotted(name) + "."@) {
            Some((instance, kind)) => Ok::<(Seq<char>, ServiceView), ErrorView>(
                (
                    address,
                    ServiceView {
                        instance,
                        kind,
                        port,
                        txt: seq![],
                        host: node.host,
                        addresses: node.addresses,
                    },
                ),
            ),
            None => Err(ErrorView::NotInstance(text::undotted(name) + "."@)),
        },
{
    reveal_strlit("port=");
    reveal_strlit(".");
    let pairs = text::split(query, '&');
    assert(text::undotted(name) + "."@ =~= text::undotted(name).push('.'));
    lemma_target_asked(node, address, name, query);
    lemma_first_port(pairs, i);
}

/// A service without a port is refused just where no pair at any place gives
/// one: a target whose query has none, and one without a query, name no
/// service, and are refused by their own text where their path is an instance
/// name.
pub proof fn law_no_port_at_any_place_is_refused(
    node: TransportView,
    address: Seq<char>,
    name: Seq<char>,
    query: Seq<char>,
)
    requires
        !address.contains('/'),
        !name.contains('?'),
    ensures
        ({
            let plain = "mdns://"@ + address + "/"@ + name;
            let asked = plain + "?"@ + query;
            let named = service::name_parts(text::undotted(name) + "."@) is Some;
            let refused = ErrorView::NotInstance(text::undotted(name) + "."@);
            &&& target_service(node, plain) == Err::<(Seq<char>, ServiceView), ErrorView>(
                if named {
                    ErrorView::NoPort(plain)
                } else {
                    refused
                },
            )
            &&& (forall|j: int|
                0 <= j < text::split(query, '&').len() ==> !(text::starts(
                    #[trigger] text::split(query, '&')[j],
                    "port="@,
                ) && text::number(text::split(query, '&')[j].skip(5), 65535) is Some))
                ==> target_service(node, asked) == Err::<(Seq<char>, ServiceView), ErrorView>(
                if named {
                    ErrorView::NoPort(asked)
                } else {
                    refused
                },
            )
        }),
{
    reveal_strlit("port=");
    reveal_strlit(".");
    let pairs = text::split(query, '&');
    assert(text::undotted(name) + "."@ =~= text::undotted(name).push('.'));
    lemma_target_plain(node, address, name);
    lemma_target_asked(node, address, name, query);
    if forall|j: int|
        0 <= j < text::split(query, '&').len() ==> !(text::starts(
            #[trigger] text::split(query, '&')[j],
            "port="@,
        ) && text::number(text::split(query, '&')[j].skip(5), 65535) is Some) {
        lemma_first_port(pairs, pairs.len() as int);
    }
}

/// A path names what a target with it does, and is refused where that is,
/// for the target it is said to be of: the target, whatever it is, tells
/// nothing more.
pub proof fn law_path_names_what_its_target_does(
    node: TransportView,
    path: Seq<char>,
    target: Seq<char>,
)
    ensures
        match target_service(node, "mdns:///"@ + path) {
            Ok((address, service)) => address.len() == 0 && path_service(node, path, target)
                == Ok::<ServiceView, ErrorView>(service),
            Err(ErrorView::NoPort(_)) => path_service(node, path, target) == Err::<
                ServiceView,
                ErrorView,
            >(ErrorView::NoPort(target)),
            Err(e) => path_service(node, path, target) == Err::<ServiceView, ErrorView>(e),
        },
{
    let whole = "mdns:///"@ + path;
    let none = Seq::<char>::empty();
    assert(uri_parts(whole) == Some((none, path))) by {
        reveal_strlit("mdns://");
        reveal_strlit("mdns:///");
        reveal_strlit("/");
        assert(whole =~= "mdns://"@ + none + "/"@ + path);
        law_uri_is_authority_and_path(whole, none, path);
    }
}

/// A pair that gives no port is passed over: a target with one before the
/// rest of its query, or after it, names what the target without it does, and
/// is refused where that is.
pub proof fn law_pair_without_port_is_passed_over(
    node: TransportView,
    address: Seq<char>,
    name: Seq<char>,
    pair: Seq<char>,
    rest: Seq<char>,
)
    requires
        !address.contains('/'),
        !name.contains('?'),
        !pair.contains('&'),
        !(text::starts(pair, "port="@) && text::number(pair.skip(5), 65535) is Some),
    ensures
        ({
            let front = "mdns://"@ + address + "/"@ + name + "?"@;
            let without = target_service(node, front + rest);
            let before = target_service(node, front + (pair + "&"@ + rest));
            let after = target_service(node, front + (rest + "&"@ + pair));
            &&& without is Ok ==> before == without && after == without
            &&& without is Err ==> before is Err && after is Err
        }),
{
    reveal_strlit("port=");
    reveal_strlit("&");
    let more = pair + "&"@ + rest;
    let last = rest + "&"@ + pair;
    assert(more =~= pair.push('&') + rest);
    assert(last =~= rest.push('&') + pair);
    text::law_split_wherever_it_stands(pair, '&', rest);
    text::law_split_wherever_it_stands(rest, '&', pair);
    let pairs = text::split(rest, '&');
    assert(text::split(more, '&') =~= seq![pair] + pairs);
    assert((seq![pair] + pairs).skip(1) =~= pairs);
    assert(text::split(last, '&') =~= pairs.push(pair));
    lemma_pushed_pair(pairs, pair);
    lemma_target_asked(node, address, name, rest);
    lemma_target_asked(node, address, name, more);
    lemma_target_asked(node, address, name, last);
}

/// One more pair without a port changes nothing.
proof fn lemma_pushed_pair(pairs: Seq<Seq<char>>, pair: Seq<char>)
    requires
        port_given(pair) is None,
    ensures
        first_port(pairs.push(pair)) == first_port(pairs),
    decreases pairs.len(),
{
    let more = pairs.push(pair);
    if pairs.len() == 0 {
        assert(more[0] == pair);
        assert(more.skip(1) =~= pairs);
    } else {
        assert(more[0] == pairs[0]);
        assert(more.skip(1) =~= pairs.skip(1).push(pair));
        lemma_pushed_pair(pairs.skip(1), pair);
    }
}

/// An origin says where a service is: at the peer, by instance, kind, port
/// and host, whatever dots its kind ends in; and what arrives with it is its
/// TXT strings as lines.
pub proof fn law_origin_says_where_a_service_is(
    peer: Seq<char>,
    told: ServiceView,
    kind: Seq<char>,
    dots: Seq<char>,
)
    requires
        told.kind == kind + dots,
        kind.len() > 0 ==> kind.last() != '.',
        forall|i: int| 0 <= i < dots.len() ==> dots[i] == '.',
    ensures
        arrival(peer, told).origin_uri == "mdns://"@ + peer + "/"@ + told.instance + "."@ + kind
            + ".local?port="@ + text::decimal(told.port as nat) + "&host="@ + told.host,
        arrival(peer, told).bytes == encode_utf8(txt::lined(told.txt)),
{
    reveal_strlit("?port=");
    reveal_strlit(".local?port=");
    reveal_strlit(".local.");
    reveal_strlit("local.");
    reveal_strlit(".");
    service::law_names_are_dotted(told, kind, dots);
    let name = told.full_name();
    let bare = name.drop_last();
    assert(bare.last() == 'l');
    assert(name =~= bare.push('.'));
    text::lemma_undotted_stays(bare);
    assert(arrival(peer, told).origin_uri =~= "mdns://"@ + peer + "/"@ + told.instance + "."@ + kind
        + ".local?port="@ + text::decimal(told.port as nat) + "&host="@ + told.host);
}

/// Every SRV record of a response arrives, and nothing of what is no
/// response: there is one arrival for each SRV record whose owner is an
/// instance name, in the order of those, whatever hosts they share. Its
/// origin names the peer, the instance and kind that the owner names, the
/// port and the target, and its bytes are the strings of all the TXT records
/// that the owner has, as lines.
pub proof fn law_every_srv_record_arrives(peer: Seq<char>, message: MessageView, j: int)
    ensures
        !message.response ==> arrivals(peer, message).len() == 0,
        message.response ==> {
            let srvs = message.records.filter(
                |r: RecordView| r.data is Srv && service::name_parts(r.name) is Some,
            );
            let found = arrivals(peer, message);
            &&& found.len() == srvs.len()
            &&& 0 <= j < srvs.len() ==> {
                let name = srvs[j].name;
                &&& service::name_parts(name) matches Some((instance, kind))
                &&& found[j].origin_uri == "mdns://"@ + peer + "/"@ + instance + "."@
                    + text::undotted(kind) + ".local?port="@ + text::decimal(
                    srvs[j].data->port as nat,
                ) + "&host="@ + srvs[j].data->target
                &&& found[j].bytes == encode_utf8(
                    txt::lined(
                        message.records.filter(
                            |r: RecordView|
                                r.kind == 16 && text::same_name(r.name, name) && r.data is Txt,
                        ).map_values(|r: RecordView| r.data->Txt_0).flatten(),
                    ),
                )
            }
        },
{
    service::law_services_are_those_of_srv_records(message.records, j);
    let found = service::services_in(message.records);
    if message.response && 0 <= j < found.len() {
        let kind = text::undotted(found[j].kind);
        let dots = found[j].kind.skip(kind.len() as int);
        lemma_dots_after(found[j].kind);
        assert(found[j].kind =~= kind + dots);
        law_origin_says_where_a_service_is(peer, found[j], kind, dots);
        assert(arrivals(peer, message)[j] == arrival(peer, found[j]));
    }
}

/// What is left out at the end is dots.
proof fn lemma_dots_after(s: Seq<char>)
    ensures
        s == text::undotted(s) + s.skip(text::undotted(s).len() as int),
        text::undotted(s).len() > 0 ==> text::undotted(s).last() != '.',
        forall|i: int|
            0 <= i < s.len() - text::undotted(s).len() ==> s.skip(
                text::undotted(s).len() as int,
            )[i] == '.',
    decreases s.len(),
{
    text::lemma_undotted(s);
    let bare = text::undotted(s);
    assert(s =~= bare + s.skip(bare.len() as int));
    if s.len() > 0 && s.last() == '.' {
        lemma_dots_after(s.drop_last());
        assert forall|i: int| 0 <= i < s.len() - bare.len() implies s.skip(bare.len() as int)[i]
            == '.' by {
            if i < s.len() - 1 - bare.len() {
                assert(s.drop_last().skip(bare.len() as int)[i] == '.');
            }
        }
    }
}

} // verus!
