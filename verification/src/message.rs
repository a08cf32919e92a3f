//! RFC 6762 section 18: multicast DNS is the DNS message of RFC 1035
//! section 4 with two bits repurposed. A [`Message`] holds what mDNS reads
//! and writes of one; the bytes on the wire are the DNS codec's. What is
//! mDNS's own is the size it sends.

use vstd::prelude::*;

use crate::address::{Ipv4Addr, Ipv6Addr};
use crate::error::{Error, ErrorView};
use crate::text;

verus! {

/// The largest message mDNS sends, RFC 6762 section 17.
pub const MAX_MESSAGE: usize = 9000;

/// A host address, RFC 1035.
pub const TYPE_A: u16 = 1;

/// A pointer to another name, RFC 1035.
pub const TYPE_PTR: u16 = 12;

/// Text strings, RFC 1035.
pub const TYPE_TXT: u16 = 16;

/// An IPv6 host address, RFC 3596.
pub const TYPE_AAAA: u16 = 28;

/// Where a service is, RFC 2782.
pub const TYPE_SRV: u16 = 33;

/// Every type, in a question.
pub const TYPE_ANY: u16 = 255;

/// The Internet class.
pub const CLASS_IN: u16 = 1;

/// The top bit of a class: in a question, that a unicast answer will do; in
/// a record, that it replaces what a cache held.
pub const BIT_UNICAST: u16 = 0x8000;

/// What a query asks.
#[derive(Clone, Debug, PartialEq, Eq)]
pub struct Question {
    pub name: String,
    pub kind: u16,
}

/// What a record says of its owner.
#[derive(Clone, Debug, PartialEq, Eq)]
pub enum RecordData {
    A(Ipv4Addr),
    Aaaa(Ipv6Addr),
    Ptr(String),
    Srv { priority: u16, weight: u16, port: u16, target: String },
    Txt(Vec<String>),
    Other(Vec<u8>),
}

/// One resource record.
#[derive(Clone, Debug, PartialEq, Eq)]
pub struct Record {
    pub name: String,
    pub kind: u16,
    pub class: u16,
    pub ttl: u32,
    pub data: RecordData,
}

/// One DNS message: what it asks, and the records of all its sections.
#[derive(Clone, Debug, PartialEq, Eq)]
pub struct Message {
    pub id: u16,
    pub response: bool,
    pub questions: Vec<Question>,
    pub records: Vec<Record>,
}

/// A [`Question`] with what its name spells.
#[verifier::ext_equal]
pub struct QuestionView {
    pub name: Seq<char>,
    pub kind: u16,
}

/// A [`RecordData`] with what its text spells.
#[verifier::ext_equal]
pub enum DataView {
    A(Ipv4Addr),
    Aaaa(Ipv6Addr),
    Ptr(Seq<char>),
    Srv { priority: u16, weight: u16, port: u16, target: Seq<char> },
    Txt(Seq<Seq<char>>),
    Other(Seq<u8>),
}

/// A [`Record`] with what its text spells.
#[verifier::ext_equal]
pub struct RecordView {
    pub name: Seq<char>,
    pub kind: u16,
    pub class: u16,
    pub ttl: u32,
    pub data: DataView,
}

/// A [`Message`] with what its text spells.
#[verifier::ext_equal]
pub struct MessageView {
    pub id: u16,
    pub response: bool,
    pub questions: Seq<QuestionView>,
    pub records: Seq<RecordView>,
}

impl View for Question {
    type V = QuestionView;

    open spec fn view(&self) -> QuestionView {
        QuestionView { name: self.name@, kind: self.kind }
    }
}

impl View for RecordData {
    type V = DataView;

    open spec fn view(&self) -> DataView {
        match *self {
            RecordData::A(v4) => DataView::A(v4),
            RecordData::Aaaa(v6) => DataView::Aaaa(v6),
            RecordData::Ptr(name) => DataView::Ptr(name@),
            RecordData::Srv { priority, weight, port, target } => DataView::Srv {
                priority,
                weight,
                port,
                target: target@,
            },
            RecordData::Txt(strings) => DataView::Txt(text::spellings(strings@)),
            RecordData::Other(bytes) => DataView::Other(bytes@),
        }
    }
}

impl View for Record {
    type V = RecordView;

    open spec fn view(&self) -> RecordView {
        RecordView {
            name: self.name@,
            kind: self.kind,
            class: self.class,
            ttl: self.ttl,
            data: self.data@,
        }
    }
}

/// Each of `records` with what its text spells.
pub open spec fn records_view(records: Seq<Record>) -> Seq<RecordView> {
    records.map_values(|r: Record| r@)
}

/// Each of `questions` with what its name spells.
pub open spec fn questions_view(questions: Seq<Question>) -> Seq<QuestionView> {
    questions.map_values(|q: Question| q@)
}

impl View for Message {
    type V = MessageView;

    open spec fn view(&self) -> MessageView {
        MessageView {
            id: self.id,
            response: self.response,
            questions: questions_view(self.questions@),
            records: records_view(self.records@),
        }
    }
}

impl MessageView {
    /// The query for the records of `kind` that `name` owns.
    pub open spec fn query(name: Seq<char>, kind: u16) -> MessageView {
        MessageView {
            id: 0,
            response: false,
            questions: seq![QuestionView { name, kind }],
            records: seq![],
        }
    }

    /// The response numbered `id` that carries `records`.
    pub open spec fn response(id: u16, records: Seq<RecordView>) -> MessageView {
        MessageView { id, response: true, questions: seq![], records }
    }
}

impl Message {
    /// The query for the records of `kind` that `name` owns. mDNS sends a
    /// query with the identifier zero, RFC 6762 section 18.1.
    pub fn query(name: &str, kind: u16) -> (message: Self)
        ensures
            message@ == MessageView::query(name@, kind),
    {
        let mut questions: Vec<Question> = Vec::new();
        questions.push(Question { name: name.to_owned(), kind });
        let message = Message { id: 0, response: false, questions, records: Vec::new() };
        assert(message@ =~= MessageView::query(name@, kind));
        message
    }

    /// The response numbered `id` that carries `records`.
    pub fn response(id: u16, records: Vec<Record>) -> (message: Self)
        ensures
            message@ == MessageView::response(id, records_view(records@)),
    {
        let message = Message { id, response: true, questions: Vec::new(), records };
        assert(message@ =~= MessageView::response(id, records_view(records@)));
        message
    }

    /// Whether this answers or announces rather than asks.
    pub fn is_response(&self) -> (r: bool)
        ensures
            r == self@.response,
    {
        self.response
    }

    /// The records of every section, in order.
    pub fn records(&self) -> (records: &Vec<Record>)
        ensures
            records_view(records@) == self@.records,
    {
        &self.records
    }
}

/// `bytes`, a message as DNS frames it, as mDNS sends it: refused over
/// [`MAX_MESSAGE`].
pub fn encode(bytes: Vec<u8>) -> (sent: Result<Vec<u8>, Error>)
    ensures
        sent is Ok <==> bytes@.len() <= MAX_MESSAGE,
        sent matches Ok(b) ==> b@ == bytes@,
        sent matches Err(e) ==> e@ == ErrorView::Oversized,
{
    if bytes.len() > MAX_MESSAGE {
        return Err(Error::Oversized);
    }
    Ok(bytes)
}

// ------------------------------------------------------------------ laws

/// Records and questions are told one by one, in order and with none left
/// out, and with all they say.
pub proof fn law_records_are_told_one_by_one(
    records: Seq<Record>,
    questions: Seq<Question>,
    i: int,
)
    ensures
        records_view(records).len() == records.len(),
        0 <= i < records.len() ==> {
            let told = records_view(records)[i];
            &&& told.name == records[i].name@
            &&& told.kind == records[i].kind
            &&& told.class == records[i].class
            &&& told.ttl == records[i].ttl
            &&& match records[i].data {
                RecordData::A(v4) => told.data == DataView::A(v4),
                RecordData::Aaaa(v6) => told.data == DataView::Aaaa(v6),
                RecordData::Ptr(name) => told.data == DataView::Ptr(name@),
                RecordData::Srv { priority, weight, port, target } => told.data == (DataView::Srv {
                    priority,
                    weight,
                    port,
                    target: target@,
                }),
                RecordData::Txt(strings) => told.data == DataView::Txt(text::spellings(strings@)),
                RecordData::Other(bytes) => told.data == DataView::Other(bytes@),
            }
        },
        questions_view(questions).len() == questions.len(),
        0 <= i < questions.len() ==> questions_view(questions)[i].name == questions[i].name@
            && questions_view(questions)[i].kind == questions[i].kind,
{
}

/// A message is told with all it says.
pub proof fn law_message_is_told(message: Message)
    ensures
        message@.id == message.id,
        message@.response == message.response,
        message@.questions == questions_view(message.questions@),
        message@.records == records_view(message.records@),
{
}

/// A query asks its one question and carries nothing, a response carries its
/// records and asks nothing, and neither is the other.
pub proof fn law_queries_ask_and_responses_carry(
    name: Seq<char>,
    kind: u16,
    id: u16,
    records: Seq<RecordView>,
)
    ensures
        !MessageView::query(name, kind).response,
        MessageView::query(name, kind).id == 0,
        MessageView::query(name, kind).questions.len() == 1,
        MessageView::query(name, kind).questions[0].name == name,
        MessageView::query(name, kind).questions[0].kind == kind,
        MessageView::query(name, kind).records.len() == 0,
        MessageView::response(id, records).response,
        MessageView::response(id, records).id == id,
        MessageView::response(id, records).questions.len() == 0,
        MessageView::response(id, records).records == records,
{
}

/// The numbers that DNS gives to types and classes, and the bit that mDNS
/// adds to a class.
pub proof fn law_numbers_of_dns()
    ensures
        TYPE_A == 1,
        TYPE_PTR == 12,
        TYPE_TXT == 16,
        TYPE_AAAA == 28,
        TYPE_SRV == 33,
        TYPE_ANY == 255,
        CLASS_IN == 1,
        BIT_UNICAST == 32768,
        MAX_MESSAGE == 9000,
{
}

} // verus!
