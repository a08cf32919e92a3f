//! Both ends of one mDNS exchange on one machine: a browser, and a responder
//! that announces a service to it and holds the Stream. mDNS says what a
//! device offers rather than what it sends, and a Stream arrives as what it
//! says it in: the browser queries for the Stream chunk by chunk, each the
//! instance `chunk-N` of one service type, and the responder answers each
//! query with that instance's records, its TXT strings [`STRING`] bytes in
//! hex each; a query past the end is answered with no strings, and that
//! closes it. Every chunk is asked for: nobody acknowledges an announcement,
//! so what is sent unasked can be lost.

use std::time::Duration;

use vstd::prelude::*;
use vstd::slice::{slice_subrange, slice_to_vec};
use vstd::utf8::{
    decode_utf8, encode_utf8, encode_utf8_decode_utf8, encode_utf8_valid_utf8, valid_utf8,
};

use crate::error;
use crate::error::{Error, ErrorView};
use crate::hex;
use crate::message;
use crate::message::{Message, MessageView};
use crate::service::{Service, ServiceView};
use crate::text;
use crate::transport;
use crate::transport::{Arrived, ArrivedView, MdnsTransport, TransportView, TTL};

verus! {

/// What one TXT string carries: twice this in hex fits the 255 bytes a
/// string holds.
pub const STRING: usize = 125;

/// What one response carries: this many strings and the three records
/// stay inside the message mDNS sends.
pub const CHUNK: usize = STRING * 32;

/// The service type every chunk is an instance of, instance `chunk-N`.
pub const KIND: &'static str = "_xmip._udp";

/// The instance the responder announces itself as.
pub const INSTANCE: &'static str = "stream";

// ------------------------------------------------------------------ chunks

/// `bytes` cut into stretches of `size`, the last of what is left.
pub open spec fn cut(bytes: Seq<u8>, size: nat) -> Seq<Seq<u8>>
    decreases bytes.len(),
{
    if bytes.len() == 0 || size == 0 {
        seq![]
    } else if bytes.len() <= size {
        seq![bytes]
    } else {
        seq![bytes.take(size as int)] + cut(bytes.skip(size as int), size)
    }
}

/// The TXT strings that carry chunk `n` of `payload`, none past its end.
pub open spec fn chunk_strings(payload: Seq<u8>, n: int) -> Seq<Seq<char>> {
    let chunks = cut(payload, CHUNK as nat);
    if 0 <= n < chunks.len() {
        cut(chunks[n], STRING as nat).map_values(|piece: Seq<u8>| hex::hex_text(piece))
    } else {
        seq![]
    }
}

/// The instance of chunk `n`, `chunk-N`.
pub open spec fn chunk_instance(n: nat) -> Seq<char> {
    "chunk-"@ + text::decimal(n)
}

/// The name of chunk `n`, `chunk-N.<kind>.local.`.
pub open spec fn chunk_name(n: nat) -> Seq<char> {
    chunk_instance(n) + "."@ + KIND@ + ".local."@
}

/// The chunk a query for `name` asks for, `chunk-N...`, where it asks for
/// one.
pub open spec fn chunk_named(name: Seq<char>) -> Result<usize, ErrorView> {
    let rest = name.skip("chunk-"@.len() as int);
    let label = rest.take(text::first_at(rest, '.') as int);
    match text::number(label, usize::MAX as nat) {
        Some(n) if text::starts(name, "chunk-"@) => Ok(n as usize),
        _ => Err(ErrorView::NotChunk(name)),
    }
}

/// The instance of chunk `n`.
fn instance_of(n: usize) -> (instance: String)
    ensures
        instance@ == chunk_instance(n as nat),
{
    let mut instance = "chunk-".to_owned();
    text::push_decimal(&mut instance, n as u64);
    instance
}

/// The chunk a query name asks for, `chunk-N...`, where it asks for one.
pub fn chunk_asked(name: &str) -> (n: Result<usize, Error>)
    ensures
        error::outcome(n) == chunk_named(name@),
{
    let chars = text::chars_of(name);
    if let Some(rest) = text::after_prefix(chars.as_slice(), "chunk-") {
        let at = text::find(rest, '.');
        proof {
            text::lemma_first_at(rest@, '.');
        }
        assert(rest@.subrange(0, at as int) =~= rest@.take(at as int));
        if let Some(n) = text::number_of(slice_subrange(rest, 0, at), usize::MAX as u64) {
            return Ok(n as usize);
        }
    }
    Err(Error::NotChunk(name.to_owned()))
}

/// Where chunk `n` of `bytes` lies.
proof fn lemma_chunk(bytes: Seq<u8>, n: int)
    ensures
        cut(bytes, CHUNK as nat).len() == (bytes.len() + CHUNK - 1) / CHUNK as int,
        0 <= n < cut(bytes, CHUNK as nat).len() ==> {
            let start = n * CHUNK;
            let end = if start + CHUNK <= bytes.len() {
                start + CHUNK
            } else {
                bytes.len() as int
            };
            &&& start < end
            &&& cut(bytes, CHUNK as nat)[n] == bytes.subrange(start, end)
        },
    decreases bytes.len(),
{
    assert(CHUNK == 4000);
    if bytes.len() > CHUNK {
        let rest = bytes.skip(CHUNK as int);
        lemma_chunk(rest, n - 1);
        if 0 < n < cut(bytes, CHUNK as nat).len() {
            let start = n * CHUNK;
            let end = if start + CHUNK <= bytes.len() {
                start + CHUNK
            } else {
                bytes.len() as int
            };
            assert(cut(bytes, CHUNK as nat)[n] == cut(rest, CHUNK as nat)[n - 1]);
            assert(rest.subrange(start - CHUNK, end - CHUNK) =~= bytes.subrange(start, end));
        } else if n == 0 {
            assert(cut(bytes, CHUNK as nat)[0] =~= bytes.subrange(0, CHUNK as int));
        }
    } else if bytes.len() > 0 && n == 0 {
        assert(cut(bytes, CHUNK as nat)[0] =~= bytes.subrange(0, bytes.len() as int));
    }
}

/// How many chunks `payload` makes.
pub fn chunk_count(payload: &[u8]) -> (count: usize)
    ensures
        count == cut(payload@, CHUNK as nat).len(),
{
    proof {
        assert(CHUNK == 4000);
        lemma_chunk(payload@, 0);
    }
    let whole: usize = payload.len() / CHUNK;
    if payload.len() % CHUNK == 0 {
        whole
    } else {
        whole + 1
    }
}

/// The hex of `chunk`, [`STRING`] bytes to a string.
fn hex_strings(chunk: &[u8]) -> (strings: Vec<String>)
    ensures
        text::spellings(strings@) == cut(chunk@, STRING as nat).map_values(
            |piece: Seq<u8>| hex::hex_text(piece),
        ),
{
    let ghost to_hex = |piece: Seq<u8>| hex::hex_text(piece);
    let ghost whole = cut(chunk@, STRING as nat).map_values(to_hex);
    let mut strings: Vec<String> = Vec::new();
    let mut rest: &[u8] = chunk;
    assert(text::spellings(strings@) + cut(rest@, STRING as nat).map_values(to_hex) =~= whole);
    while rest.len() > 0
        invariant
            to_hex == |piece: Seq<u8>| hex::hex_text(piece),
            text::spellings(strings@) + cut(rest@, STRING as nat).map_values(to_hex) == whole,
        decreases rest.len(),
    {
        let ghost before = text::spellings(strings@);
        let ghost longer = rest@;
        let size: usize = if rest.len() <= STRING {
            rest.len()
        } else {
            STRING
        };
        let piece = slice_subrange(rest, 0, size);
        let string = hex::hex(piece);
        strings.push(string);
        rest = slice_subrange(rest, size, rest.len());
        assert(text::spellings(strings@) =~= before.push(string@));
        assert(piece@ =~= longer.take(size as int));
        assert(rest@ =~= longer.skip(size as int));
        proof {
            if size == longer.len() {
                assert(piece@ =~= longer);
                assert(cut(rest@, STRING as nat) =~= seq![]);
            }
        }
        assert(cut(longer, STRING as nat) =~= seq![piece@] + cut(rest@, STRING as nat));
        assert(text::spellings(strings@) + cut(rest@, STRING as nat).map_values(to_hex)
            =~= before + cut(longer, STRING as nat).map_values(to_hex));
    }
    assert(cut(rest@, STRING as nat).map_values(to_hex) =~= seq![]);
    assert(text::spellings(strings@) =~= whole);
    strings
}

/// The TXT strings that carry chunk `n` of `payload`, none past its end.
pub fn strings_of(payload: &[u8], n: usize) -> (strings: Vec<String>)
    ensures
        text::spellings(strings@) == chunk_strings(payload@, n as int),
{
    let count = chunk_count(payload);
    if n >= count {
        let none: Vec<String> = Vec::new();
        assert(text::spellings(none@) =~= seq![]);
        return none;
    }
    proof {
        assert(CHUNK == 4000);
        lemma_chunk(payload@, n as int);
        assert(n * CHUNK < payload.len());
    }
    let start: usize = n * CHUNK;
    let end: usize = if payload.len() - start >= CHUNK {
        start + CHUNK
    } else {
        payload.len()
    };
    hex_strings(slice_subrange(payload, start, end))
}

// --------------------------------------------------------------- responder

/// The service `instance` of [`KIND`] on the host of `node`, its TXT being
/// `txt`.
pub open spec fn kind_service(
    node: TransportView,
    instance: Seq<char>,
    txt: Seq<Seq<char>>,
) -> ServiceView {
    ServiceView {
        instance,
        kind: KIND@,
        port: 1,
        txt,
        host: node.host,
        addresses: node.addresses,
    }
}

/// What the responder on `node` announces itself with.
pub open spec fn stream_announced(node: TransportView) -> MessageView {
    MessageView::response(0, kind_service(node, INSTANCE@, seq![]).records(TTL))
}

/// What the first question of `query` asks for, nothing where it has none.
pub open spec fn name_asked(query: MessageView) -> Seq<char> {
    if query.questions.len() > 0 {
        query.questions[0].name
    } else {
        seq![]
    }
}

/// The response with chunk `n` of `payload` to the query numbered `id`.
pub open spec fn chunk_response(
    node: TransportView,
    payload: Seq<u8>,
    id: u16,
    n: nat,
) -> MessageView {
    MessageView::response(
        id,
        kind_service(node, chunk_instance(n), chunk_strings(payload, n as int)).records(TTL),
    )
}

/// What the responder on `node` that holds `payload` answers `query` with,
/// and whether the query asked past the end, which closes the exchange.
pub open spec fn stream_answer(
    node: TransportView,
    payload: Seq<u8>,
    query: MessageView,
) -> Result<(MessageView, bool), ErrorView> {
    match chunk_named(name_asked(query)) {
        Ok(n) => Ok(
            (
                chunk_response(node, payload, query.id, n as nat),
                n >= cut(payload, CHUNK as nat).len(),
            ),
        ),
        Err(e) => Err(e),
    }
}

impl MdnsTransport {
    /// Both ends on one machine: a browser at an ephemeral local port, with
    /// `timeout` on both.
    #[must_use]
    pub fn loopback(timeout: Duration) -> (node: Self)
        ensures
            node@ == (TransportView {
                bind: "127.0.0.1:0"@,
                group: transport::GROUP@,
                browsing: None,
                host: "xmip.local."@,
                addresses: seq![],
                timeout: Some(timeout),
            }),
    {
        Self::new("127.0.0.1:0").timing_out_after(timeout)
    }

    /// The service `instance` of [`KIND`] on this host, its TXT being `txt`.
    pub fn service(&self, instance: &str, txt: Vec<String>) -> (service: Service)
        ensures
            service@ == kind_service(self@, instance@, text::spellings(txt@)),
    {
        Service {
            instance: instance.to_owned(),
            kind: KIND.to_owned(),
            port: 1,
            txt,
            host: self.host().to_owned(),
            addresses: slice_to_vec(self.addresses().as_slice()),
        }
    }

    /// What a responder announces itself with.
    pub fn announce_stream(&self) -> (message: Message)
        ensures
            message@ == stream_announced(self@),
    {
        let none: Vec<String> = Vec::new();
        assert(text::spellings(none@) =~= seq![]);
        Message::response(0, self.service(INSTANCE, none).records(TTL))
    }

    /// What a responder that holds `payload` answers `query` with, and
    /// whether that closes the exchange: it does once a query asks past the
    /// end. Refused: a query for something other than a chunk.
    pub fn answer(&self, payload: &[u8], query: &Message) -> (answer: Result<
        (Message, bool),
        Error,
    >)
        ensures
            error::outcome(answer) == stream_answer(self@, payload@, query@),
    {
        let n = if query.questions.len() > 0 {
            assert(query@.questions[0] == query.questions@[0]@);
            chunk_asked(query.questions[0].name.as_str())
        } else {
            let nothing = String::new();
            chunk_asked(nothing.as_str())
        };
        match n {
            Ok(n) => {
                let service = self.service(instance_of(n).as_str(), strings_of(payload, n));
                Ok((Message::response(query.id, service.records(TTL)), n >= chunk_count(payload)))
            },
            Err(e) => Err(e),
        }
    }
}

// ----------------------------------------------------------------- browser

/// `std::str::from_utf8`: text where the bytes are valid UTF-8, and then what
/// they decode to.
#[verifier::external_body]
fn text_of(bytes: &[u8]) -> (s: Option<&str>)
    ensures
        s is Some <==> valid_utf8(bytes@),
        s matches Some(t) ==> t@ == decode_utf8(bytes@),
{
    std::str::from_utf8(bytes).ok()
}

/// The bytes that `lines` spell in hex, one line after another.
pub open spec fn lines_taken(lines: Seq<Seq<char>>) -> Result<Seq<u8>, ErrorView>
    decreases lines.len(),
{
    if lines.len() == 0 {
        Ok(seq![])
    } else {
        match (lines_taken(lines.drop_last()), hex::unhexed(lines.last())) {
            (Err(e), _) => Err(e),
            (_, Err(e)) => Err(e),
            (Ok(bytes), Ok(more)) => Ok(bytes + more),
        }
    }
}

/// The bytes that the TXT strings `stream`, a line each, spell in hex.
pub open spec fn stream_taken(stream: Seq<u8>) -> Result<Seq<u8>, ErrorView> {
    if valid_utf8(stream) {
        lines_taken(text::lines(decode_utf8(stream)))
    } else {
        Err(ErrorView::NotText)
    }
}

/// `bytes` with what `arrived` add, up to the first without TXT strings, and
/// whether there was such a one.
pub open spec fn all_taken(arrived: Seq<ArrivedView>, bytes: Seq<u8>) -> Result<
    (Seq<u8>, bool),
    ErrorView,
>
    decreases arrived.len(),
{
    if arrived.len() == 0 {
        Ok((bytes, false))
    } else if arrived[0].bytes.len() == 0 {
        Ok((bytes, true))
    } else {
        match stream_taken(arrived[0].bytes) {
            Ok(more) => all_taken(arrived.skip(1), bytes + more),
            Err(e) => Err(e),
        }
    }
}

/// A Stream being taken from a responder, chunk by chunk.
pub struct Taking {
    origin_uri: String,
    responder: String,
    next: usize,
    bytes: Vec<u8>,
}

/// A [`Taking`] with what its text spells.
#[verifier::ext_equal]
pub struct TakingView {
    /// Where the Stream was announced from.
    pub origin_uri: Seq<char>,
    /// Who is asked for it.
    pub responder: Seq<char>,
    /// The chunk to ask for.
    pub next: nat,
    /// The bytes taken so far.
    pub bytes: Seq<u8>,
}

impl View for Taking {
    type V = TakingView;

    closed spec fn view(&self) -> TakingView {
        TakingView {
            origin_uri: self.origin_uri@,
            responder: self.responder@,
            next: self.next as nat,
            bytes: self.bytes@,
        }
    }
}

/// What taking one answer came to: more to ask for, or the whole Stream.
pub enum Taken {
    More(Taking),
    Whole(Arrived),
}

/// A [`Taken`] with what its text spells.
#[verifier::ext_equal]
pub enum TakenView {
    More(TakingView),
    Whole(ArrivedView),
}

impl View for Taken {
    type V = TakenView;

    open spec fn view(&self) -> TakenView {
        match *self {
            Taken::More(taking) => TakenView::More(taking@),
            Taken::Whole(arrived) => TakenView::Whole(arrived@),
        }
    }
}

/// The Stream that the first of `announced` announces, to be taken from the
/// responder that announced it.
pub open spec fn taking_begun(announced: Seq<ArrivedView>) -> Result<TakingView, ErrorView> {
    if announced.len() == 0 {
        Err(ErrorView::Unannounced)
    } else {
        match transport::origin_peer(announced[0].origin_uri) {
            Ok(responder) => Ok(
                TakingView {
                    origin_uri: announced[0].origin_uri,
                    responder,
                    next: 0,
                    bytes: seq![],
                },
            ),
            Err(e) => Err(e),
        }
    }
}

impl TakingView {
    /// The query for the next chunk.
    pub open spec fn query(self) -> MessageView {
        MessageView::query(chunk_name(self.next), message::TYPE_ANY)
    }

    /// What taking `arrived`, the answer to the query, comes to.
    pub open spec fn take(self, arrived: Seq<ArrivedView>) -> Result<TakenView, ErrorView> {
        match all_taken(arrived, self.bytes) {
            Ok((bytes, true)) => Ok(
                TakenView::Whole(ArrivedView { origin_uri: self.origin_uri, bytes }),
            ),
            Ok((bytes, false)) => if self.next + 1 < usize::MAX {
                Ok(TakenView::More(TakingView { next: self.next + 1, bytes, ..self }))
            } else {
                Err(ErrorView::Endless)
            },
            Err(e) => Err(e),
        }
    }
}

/// The bytes that the TXT strings `stream`, a line each, spell in hex.
pub fn take_stream(stream: &[u8]) -> (bytes: Result<Vec<u8>, Error>)
    ensures
        error::outcome(bytes) == stream_taken(stream@),
{
    let s = match text_of(stream) {
        Some(s) => s,
        None => return Err(Error::NotText),
    };
    let chars = text::chars_of(s);
    let lines = text::lines_of(chars.as_slice());
    let ghost all = text::parts_view(lines@);
    let mut bytes: Vec<u8> = Vec::new();
    assert(bytes@ =~= seq![]);
    for at in 0..lines.len()
        invariant
            all == text::parts_view(lines@),
            lines_taken(all.take(at as int)) == Ok::<Seq<u8>, ErrorView>(bytes@),
            stream_taken(stream@) == lines_taken(all),
    {
        let line = text::spelled(lines[at]);
        proof {
            assert(all.take(at + 1).drop_last() =~= all.take(at as int));
            assert(all.take(at + 1).last() == line@);
        }
        match hex::unhex(line.as_str()) {
            Ok(mut more) => {
                bytes.append(&mut more);
            },
            Err(e) => {
                proof {
                    lemma_refused_stays(all, at + 1);
                }
                return Err(e);
            },
        }
    }
    assert(all.take(lines.len() as int) =~= all);
    Ok(bytes)
}

/// Lines are refused for the first that is refused.
proof fn lemma_refused_stays(lines: Seq<Seq<char>>, n: int)
    requires
        0 <= n <= lines.len(),
        lines_taken(lines.take(n)) is Err,
    ensures
        lines_taken(lines) == lines_taken(lines.take(n)),
    decreases lines.len() - n,
{
    if n < lines.len() {
        assert(lines.take(n + 1).drop_last() =~= lines.take(n));
        lemma_refused_stays(lines, n + 1);
    } else {
        assert(lines.take(n) =~= lines);
    }
}

impl Taking {
    /// Begin to take the Stream that the first of `announced` announces.
    pub fn begin(announced: &Vec<Arrived>) -> (taking: Result<Taking, Error>)
        ensures
            error::outcome(taking) == taking_begun(transport::arrived_view(announced@)),
    {
        if announced.len() == 0 {
            return Err(Error::Unannounced);
        }
        assert(transport::arrived_view(announced@)[0] == announced@[0]@);
        let origin_uri = announced[0].origin_uri.clone();
        match transport::peer_of(origin_uri.as_str()) {
            Ok(responder) => {
                let taking = Taking { origin_uri, responder, next: 0, bytes: Vec::new() };
                assert(taking@.bytes =~= seq![]);
                Ok(taking)
            },
            Err(e) => Err(e),
        }
    }

    /// Who is asked for the Stream.
    pub fn responder(&self) -> (responder: &str)
        ensures
            responder@ == self@.responder,
    {
        self.responder.as_str()
    }

    /// The query for the next chunk.
    pub fn query(&self) -> (query: Message)
        ensures
            query@ == self@.query(),
    {
        let mut name = instance_of(self.next);
        name.append(".");
        name.append(KIND);
        name.append(".local.");
        Message::query(name.as_str(), message::TYPE_ANY)
    }

    /// Take `arrived`, the answer to the query: what has no TXT strings
    /// closes the Stream.
    pub fn take(self, arrived: &Vec<Arrived>) -> (taken: Result<Taken, Error>)
        ensures
            error::outcome(taken) == self@.take(transport::arrived_view(arrived@)),
    {
        let ghost all = transport::arrived_view(arrived@);
        let Taking { origin_uri, responder, next, mut bytes } = self;
        assert(all.skip(0) =~= all);
        for at in 0..arrived.len()
            invariant
                all == transport::arrived_view(arrived@),
                all_taken(all.skip(at as int), bytes@) == all_taken(all, self@.bytes),
                origin_uri@ == self@.origin_uri,
        {
            let stream = &arrived[at].bytes;
            assert(all.skip(at as int)[0] == arrived@[at as int]@);
            assert(all.skip(at as int).skip(1) =~= all.skip(at + 1));
            if stream.len() == 0 {
                return Ok(Taken::Whole(Arrived { origin_uri, bytes }));
            }
            match take_stream(stream.as_slice()) {
                Ok(mut more) => {
                    bytes.append(&mut more);
                },
                Err(e) => return Err(e),
            }
        }
        if next >= usize::MAX - 1 {
            Err(Error::Endless)
        } else {
            Ok(Taken::More(Taking { origin_uri, responder, next: next + 1, bytes }))
        }
    }
}

// ------------------------------------------------------------------ laws

/// Bytes are cut wherever a stretch is full: there are as many stretches as
/// it takes to hold all bytes, and each is the bytes from where those before
/// it end, as many as the size or as are left.
pub proof fn law_cut_wherever_a_stretch_is_full(bytes: Seq<u8>, size: nat, i: int)
    requires
        size > 0,
    ensures
        bytes.len() <= cut(bytes, size).len() * size < bytes.len() + size,
        0 <= i < cut(bytes, size).len() ==> {
            let start = i * size;
            let end = if start + size <= bytes.len() {
                start + size
            } else {
                bytes.len() as int
            };
            &&& 0 <= start < end
            &&& cut(bytes, size)[i] == bytes.subrange(start, end)
        },
    decreases bytes.len(),
{
    let pieces = cut(bytes, size);
    if bytes.len() > size {
        let rest = bytes.skip(size as int);
        let fewer = cut(rest, size).len();
        law_cut_wherever_a_stretch_is_full(rest, size, i - 1);
        assert(pieces.len() == fewer + 1);
        assert((fewer + 1) * size == fewer * size + size) by (nonlinear_arith);
        assert((i - 1) * size == i * size - size) by (nonlinear_arith);
        if 0 < i < pieces.len() {
            let start = i * size;
            let end = if start + size <= bytes.len() {
                start + size
            } else {
                bytes.len() as int
            };
            assert(pieces[i] == cut(rest, size)[i - 1]);
            assert(rest.subrange(start - size, end - size) =~= bytes.subrange(start, end));
        } else if i == 0 {
            assert(0 * size == 0) by (nonlinear_arith);
            assert(pieces[0] =~= bytes.subrange(0, size as int));
        }
    } else if bytes.len() > 0 {
        assert(1 * size == size) by (nonlinear_arith);
        assert(0 * size == 0) by (nonlinear_arith);
        if i == 0 {
            assert(pieces[0] =~= bytes.subrange(0, bytes.len() as int));
        }
    } else {
        assert(0 * size == 0) by (nonlinear_arith);
    }
}

/// A chunk carries its bytes: chunk `n` has as many strings as its bytes, the
/// 4000 from `n` times 4000 or as many as are left, fill at 125 to a string,
/// and each string is the hex of the bytes that are its own. A chunk past the
/// end has none.
pub proof fn law_chunk_carries_its_bytes(payload: Seq<u8>, n: int, i: int)
    ensures
        ({
            let strings = chunk_strings(payload, n);
            let start = n * 4000;
            let end = if start + 4000 <= payload.len() {
                start + 4000
            } else {
                payload.len() as int
            };
            let from = start + i * 125;
            let to = if from + 125 <= end {
                from + 125
            } else {
                end
            };
            &&& n < 0 || start >= payload.len() ==> strings.len() == 0
            &&& n >= 0 && start < payload.len() ==> end - start <= strings.len() * 125 < end - start
                + 125
            &&& 0 <= i < strings.len() ==> {
                &&& 0 <= from < to <= payload.len()
                &&& strings[i] == hex::hex_text(payload.subrange(from, to))
            }
        }),
{
    assert(CHUNK == 4000 && STRING == 125);
    let chunks = cut(payload, CHUNK as nat);
    law_cut_wherever_a_stretch_is_full(payload, CHUNK as nat, n);
    if 0 <= n < chunks.len() {
        let chunk = chunks[n];
        law_cut_wherever_a_stretch_is_full(chunk, STRING as nat, i);
        let pieces = cut(chunk, STRING as nat);
        let start = n * 4000;
        if 0 <= i < pieces.len() {
            let end = start + chunk.len();
            let from = start + i * 125;
            let to = if from + 125 <= end {
                from + 125
            } else {
                end
            };
            assert(pieces[i] =~= payload.subrange(from, to));
        }
    }
}

/// A query asks for the chunk of its first label: what follows `chunk-` up to
/// a dot or the end, read as a number. A name without `chunk-` before it, or
/// whose label is no number, is refused by its own text.
pub proof fn law_first_label_is_asked_for(label: Seq<char>, rest: Seq<char>, other: Seq<char>)
    requires
        !label.contains('.'),
        rest.len() > 0 ==> rest[0] == '.',
    ensures
        chunk_named("chunk-"@ + label + rest) == match text::number(label, usize::MAX as nat) {
            Some(n) => Ok::<usize, ErrorView>(n as usize),
            None => Err(ErrorView::NotChunk("chunk-"@ + label + rest)),
        },
        !text::starts(other, "chunk-"@) ==> chunk_named(other) == Err::<usize, ErrorView>(
            ErrorView::NotChunk(other),
        ),
{
    reveal_strlit("chunk-");
    let name = "chunk-"@ + label + rest;
    assert(name.take(6) =~= "chunk-"@);
    assert(name.skip(6) =~= label + rest);
    if rest.len() > 0 {
        assert(label + rest =~= label.push('.') + rest.skip(1));
        text::law_found_where_first(label, '.', rest.skip(1));
    } else {
        assert(label + rest =~= label);
        text::law_found_where_first(label, '.', rest);
    }
    assert((label + rest).take(label.len() as int) =~= label);
}

/// The browser asks for the next chunk by its number: one question, for every
/// type of record that the name of that instance has.
pub proof fn law_next_chunk_is_asked_for(taking: TakingView)
    ensures
        chunk_instance(taking.next) == "chunk-"@ + text::decimal(taking.next),
        chunk_name(taking.next) == "chunk-"@ + text::decimal(taking.next) + "._xmip._udp.local."@,
        !taking.query().response,
        taking.query().id == 0,
        taking.query().records.len() == 0,
        taking.query().questions.len() == 1,
        taking.query().questions[0].name == "chunk-"@ + text::decimal(taking.next)
            + "._xmip._udp.local."@,
        taking.query().questions[0].kind == 255,
{
    reveal_strlit(".");
    reveal_strlit("_xmip._udp");
    reveal_strlit(".local.");
    reveal_strlit("._xmip._udp.local.");
    assert(chunk_name(taking.next) =~= "chunk-"@ + text::decimal(taking.next)
        + "._xmip._udp.local."@);
}

/// Lines are taken one after another: what lines and then more give is what
/// the ones give and then what the others do, and they are refused for the
/// first line that is. What one line gives is what its hex spells.
pub proof fn law_lines_are_taken_in_turn(
    a: Seq<Seq<char>>,
    b: Seq<Seq<char>>,
    line: Seq<char>,
)
    ensures
        lines_taken(a + b) == match (lines_taken(a), lines_taken(b)) {
            (Err(e), _) => Err(e),
            (Ok(_), Err(e)) => Err(e),
            (Ok(bytes), Ok(more)) => Ok(bytes + more),
        },
        lines_taken(seq![line]) == hex::unhexed(line),
        lines_taken(seq![]) == Ok::<Seq<u8>, ErrorView>(seq![]),
    decreases b.len(),
{
    let one = seq![line];
    assert(one.drop_last() =~= seq![]);
    assert(lines_taken(one.drop_last()) == Ok::<Seq<u8>, ErrorView>(seq![]));
    if let Ok(bytes) = hex::unhexed(line) {
        assert(Seq::<u8>::empty() + bytes =~= bytes);
    }
    if b.len() > 0 {
        assert((a + b).drop_last() =~= a + b.drop_last());
        assert((a + b).last() == b.last());
        law_lines_are_taken_in_turn(a, b.drop_last(), line);
        if let (Ok(x), Ok(y), Ok(z)) = (
            lines_taken(a),
            lines_taken(b.drop_last()),
            hex::unhexed(b.last()),
        ) {
            assert((x + y) + z =~= x + (y + z));
        }
    } else {
        assert(a + b =~= a);
        if let Ok(x) = lines_taken(a) {
            assert(x + Seq::<u8>::empty() =~= x);
        }
    }
}

/// A Stream of TXT strings is taken as its lines are, and refused where it is
/// no UTF-8.
pub proof fn law_stream_is_taken_as_its_lines(s: Seq<char>, bytes: Seq<u8>)
    ensures
        stream_taken(encode_utf8(s)) == lines_taken(text::lines(s)),
        !valid_utf8(bytes) ==> stream_taken(bytes) == Err::<Seq<u8>, ErrorView>(
            ErrorView::NotText,
        ),
{
    encode_utf8_valid_utf8(s);
    encode_utf8_decode_utf8(s);
}

/// What answers a query is taken in turn: what has no TXT strings closes the
/// Stream with what was taken before it, whatever comes after; what has some
/// adds what they spell, before the rest is taken, or is refused for them.
/// When nothing is left the next chunk is to be asked for, of the same Stream
/// from the same responder, unless there is no number left for it.
pub proof fn law_answers_are_taken_in_turn(
    taking: TakingView,
    first: ArrivedView,
    rest: Seq<ArrivedView>,
)
    ensures
        taking.take(seq![]) == if taking.next + 1 < usize::MAX {
            Ok::<TakenView, ErrorView>(
                TakenView::More(
                    TakingView {
                        origin_uri: taking.origin_uri,
                        responder: taking.responder,
                        next: taking.next + 1,
                        bytes: taking.bytes,
                    },
                ),
            )
        } else {
            Err(ErrorView::Endless)
        },
        first.bytes.len() == 0 ==> taking.take(seq![first] + rest) == Ok::<TakenView, ErrorView>(
            TakenView::Whole(
                ArrivedView { origin_uri: taking.origin_uri, bytes: taking.bytes },
            ),
        ),
        first.bytes.len() > 0 ==> taking.take(seq![first] + rest) == match stream_taken(
            first.bytes,
        ) {
            Ok(more) => TakingView {
                origin_uri: taking.origin_uri,
                responder: taking.responder,
                next: taking.next,
                bytes: taking.bytes + more,
            }.take(rest),
            Err(e) => Err(e),
        },
{
    let all = seq![first] + rest;
    assert(all[0] == first);
    assert(all.skip(1) =~= rest);
}

/// A Stream is taken from who announced it first: from the peer that the
/// origin of the first arrival names, with that origin, from its first chunk
/// on. Nothing announced, and an origin without a peer, are refused.
pub proof fn law_stream_is_taken_from_who_announced_it(
    first: ArrivedView,
    rest: Seq<ArrivedView>,
)
    ensures
        taking_begun(seq![]) == Err::<TakingView, ErrorView>(ErrorView::Unannounced),
        taking_begun(seq![first] + rest) == match transport::origin_peer(first.origin_uri) {
            Ok(peer) => Ok::<TakingView, ErrorView>(
                TakingView {
                    origin_uri: first.origin_uri,
                    responder: peer,
                    next: 0,
                    bytes: seq![],
                },
            ),
            Err(e) => Err(e),
        },
{
    assert((seq![first] + rest)[0] == first);
}

/// What an answer came to is told as it is.
pub proof fn law_taken_is_told(more: Taking, whole: Arrived)
    ensures
        Taken::More(more)@ == TakenView::More(more@),
        Taken::Whole(whole)@ == TakenView::Whole(whole@),
{
}

} // verus!
