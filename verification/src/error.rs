//! What a request or a message is refused for.

use vstd::prelude::*;

verus! {

/// Why something was refused. None of these gets better by trying again.
#[derive(Clone, Debug, PartialEq, Eq)]
pub enum Error {
    /// A target that names no service.
    NoService(String),
    /// A name that is not `<instance>.<kind>.local.`.
    NotInstance(String),
    /// A target whose service has no port.
    NoPort(String),
    /// A message over what mDNS sends.
    Oversized,
    /// An announcement naming no service.
    Unannounced,
    /// An origin naming no peer.
    NoPeer(String),
    /// A query for something other than a chunk.
    NotChunk(String),
    /// TXT strings that are not text.
    NotText,
    /// An odd number of hex digits.
    OddHex(String),
    /// What is not hex.
    NotHex(String),
    /// A Stream that never ends.
    Endless,
}

/// An [`Error`] with what its text spells.
#[verifier::ext_equal]
pub enum ErrorView {
    NoService(Seq<char>),
    NotInstance(Seq<char>),
    NoPort(Seq<char>),
    Oversized,
    Unannounced,
    NoPeer(Seq<char>),
    NotChunk(Seq<char>),
    NotText,
    OddHex(Seq<char>),
    NotHex(Seq<char>),
    Endless,
}

impl View for Error {
    type V = ErrorView;

    open spec fn view(&self) -> ErrorView {
        match *self {
            Error::NoService(target) => ErrorView::NoService(target@),
            Error::NotInstance(name) => ErrorView::NotInstance(name@),
            Error::NoPort(target) => ErrorView::NoPort(target@),
            Error::Oversized => ErrorView::Oversized,
            Error::Unannounced => ErrorView::Unannounced,
            Error::NoPeer(origin) => ErrorView::NoPeer(origin@),
            Error::NotChunk(name) => ErrorView::NotChunk(name@),
            Error::NotText => ErrorView::NotText,
            Error::OddHex(digits) => ErrorView::OddHex(digits@),
            Error::NotHex(digits) => ErrorView::NotHex(digits@),
            Error::Endless => ErrorView::Endless,
        }
    }
}

/// What `result` came to, with what its parts spell.
pub open spec fn outcome<T: View>(result: Result<T, Error>) -> Result<T::V, ErrorView> {
    match result {
        Ok(value) => Ok(value@),
        Err(error) => Err(error@),
    }
}

/// `text` in double quotes with escapes, as `{:?}` writes it.
pub uninterp spec fn quoted_text(text: Seq<char>) -> Seq<char>;

/// `format!("{:?}", text)`: the `Debug` form of a string, which depends on
/// the string alone.
#[verifier::external_body]
fn quoted(text: &str) -> (r: String)
    ensures
        r@ == quoted_text(text@),
{
    format!("{:?}", text)
}

impl ErrorView {
    /// What the error is about, nothing where it is about nothing.
    pub open spec fn subject(self) -> Seq<char> {
        match self {
            ErrorView::NoService(target) => target,
            ErrorView::NotInstance(name) => name,
            ErrorView::NoPort(target) => target,
            ErrorView::NoPeer(origin) => origin,
            ErrorView::NotChunk(name) => name,
            ErrorView::OddHex(digits) => digits,
            ErrorView::NotHex(digits) => digits,
            _ => seq![],
        }
    }

    /// The error in words, where `quoted` is its subject in quotes.
    pub open spec fn worded(self, quoted: Seq<char>) -> Seq<char> {
        match self {
            ErrorView::NoService(target) =>
                "an mdns target names the service: mdns://host:port/<instance>.<kind>.local?port=…, got "@
                    + target,
            ErrorView::NotInstance(name) => "not <instance>.<kind>.local: "@ + name,
            ErrorView::NoPort(target) => "a service without ?port=: "@ + target,
            ErrorView::Oversized => "a message over what mDNS sends"@,
            ErrorView::Unannounced => "an announcement naming no service"@,
            ErrorView::NoPeer(origin) => "an origin naming no peer: "@ + origin,
            ErrorView::NotChunk(_) => "a query for something else: "@ + quoted,
            ErrorView::NotText => "TXT strings that are not text"@,
            ErrorView::OddHex(_) => "an odd number of hex digits: "@ + quoted,
            ErrorView::NotHex(_) => "not hex: "@ + quoted,
            ErrorView::Endless => "a Stream that never ends"@,
        }
    }
}

/// `said` followed by `what`.
fn about(said: &str, what: &str) -> (r: String)
    ensures
        r@ == said@ + what@,
{
    let mut r = said.to_owned();
    r.append(what);
    r
}

impl Error {
    /// What the error is about, nothing where it is about nothing.
    pub fn subject(&self) -> (text: String)
        ensures
            text@ == self@.subject(),
    {
        match self {
            Error::NoService(target) => target.clone(),
            Error::NotInstance(name) => name.clone(),
            Error::NoPort(target) => target.clone(),
            Error::NoPeer(origin) => origin.clone(),
            Error::NotChunk(name) => name.clone(),
            Error::OddHex(digits) => digits.clone(),
            Error::NotHex(digits) => digits.clone(),
            _ => String::new(),
        }
    }

    /// The error in words, where `quoted` is its subject in quotes.
    pub fn worded(&self, quoted: &str) -> (text: String)
        ensures
            text@ == self@.worded(quoted@),
    {
        match self {
            Error::NoService(target) => about(
                "an mdns target names the service: mdns://host:port/<instance>.<kind>.local?port=…, got ",
                target.as_str(),
            ),
            Error::NotInstance(name) => about("not <instance>.<kind>.local: ", name.as_str()),
            Error::NoPort(target) => about("a service without ?port=: ", target.as_str()),
            Error::Oversized => "a message over what mDNS sends".to_owned(),
            Error::Unannounced => "an announcement naming no service".to_owned(),
            Error::NoPeer(origin) => about("an origin naming no peer: ", origin.as_str()),
            Error::NotChunk(_) => about("a query for something else: ", quoted),
            Error::NotText => "TXT strings that are not text".to_owned(),
            Error::OddHex(_) => about("an odd number of hex digits: ", quoted),
            Error::NotHex(_) => about("not hex: ", quoted),
            Error::Endless => "a Stream that never ends".to_owned(),
        }
    }

    /// The error in words.
    pub fn message(&self) -> (text: String)
        ensures
            text@ == self@.worded(quoted_text(self@.subject())),
    {
        self.worded(quoted(self.subject().as_str()).as_str())
    }
}

// ------------------------------------------------------------------ laws

/// An error says what it is about: the words for what is named as it stands
/// are the words for nothing and then all of it, the words for what is quoted
/// are the words for nothing and then all of the quote, and that is what the
/// error is about. The others are about nothing.
pub proof fn law_errors_say_what_they_are_about(what: Seq<char>, quote: Seq<char>)
    ensures
        ErrorView::NoService(what).subject() == what,
        ErrorView::NotInstance(what).subject() == what,
        ErrorView::NoPort(what).subject() == what,
        ErrorView::NoPeer(what).subject() == what,
        ErrorView::NotChunk(what).subject() == what,
        ErrorView::OddHex(what).subject() == what,
        ErrorView::NotHex(what).subject() == what,
        ErrorView::Oversized.subject().len() == 0,
        ErrorView::Unannounced.subject().len() == 0,
        ErrorView::NotText.subject().len() == 0,
        ErrorView::Endless.subject().len() == 0,
        ErrorView::NoService(what).worded(quote) == ErrorView::NoService(seq![]).worded(seq![])
            + what,
        ErrorView::NotInstance(what).worded(quote) == ErrorView::NotInstance(seq![]).worded(seq![])
            + what,
        ErrorView::NoPort(what).worded(quote) == ErrorView::NoPort(seq![]).worded(seq![]) + what,
        ErrorView::NoPeer(what).worded(quote) == ErrorView::NoPeer(seq![]).worded(seq![]) + what,
        ErrorView::NotChunk(what).worded(quote) == ErrorView::NotChunk(seq![]).worded(seq![])
            + quote,
        ErrorView::OddHex(what).worded(quote) == ErrorView::OddHex(seq![]).worded(seq![]) + quote,
        ErrorView::NotHex(what).worded(quote) == ErrorView::NotHex(seq![]).worded(seq![]) + quote,
        ErrorView::Oversized.worded(quote) == ErrorView::Oversized.worded(seq![]),
        ErrorView::Unannounced.worded(quote) == ErrorView::Unannounced.worded(seq![]),
        ErrorView::NotText.worded(quote) == ErrorView::NotText.worded(seq![]),
        ErrorView::Endless.worded(quote) == ErrorView::Endless.worded(seq![]),
{
    let none = Seq::<char>::empty();
    assert(ErrorView::NoService(none).worded(none) + what =~= ErrorView::NoService(what).worded(
        quote,
    ));
    assert(ErrorView::NotInstance(none).worded(none) + what =~= ErrorView::NotInstance(
        what,
    ).worded(quote));
    assert(ErrorView::NoPort(none).worded(none) + what =~= ErrorView::NoPort(what).worded(quote));
    assert(ErrorView::NoPeer(none).worded(none) + what =~= ErrorView::NoPeer(what).worded(quote));
    assert(ErrorView::NotChunk(none).worded(none) + quote =~= ErrorView::NotChunk(what).worded(
        quote,
    ));
    assert(ErrorView::OddHex(none).worded(none) + quote =~= ErrorView::OddHex(what).worded(quote));
    assert(ErrorView::NotHex(none).worded(none) + quote =~= ErrorView::NotHex(what).worded(quote));
}

/// What a request came to is told as it is: what was given where it was
/// granted, and the error and its subject where it was refused.
pub proof fn law_outcome_is_told<T: View>(granted: T, refused: Error)
    ensures
        outcome(Ok::<T, Error>(granted)) == Ok::<T::V, ErrorView>(granted@),
        outcome(Err::<T, Error>(refused)) == Err::<T::V, ErrorView>(refused@),
        match refused {
            Error::NoService(target) => refused@ == ErrorView::NoService(target@),
            Error::NotInstance(name) => refused@ == ErrorView::NotInstance(name@),
            Error::NoPort(target) => refused@ == ErrorView::NoPort(target@),
            Error::Oversized => refused@ == ErrorView::Oversized,
            Error::Unannounced => refused@ == ErrorView::Unannounced,
            Error::NoPeer(origin) => refused@ == ErrorView::NoPeer(origin@),
            Error::NotChunk(name) => refused@ == ErrorView::NotChunk(name@),
            Error::NotText => refused@ == ErrorView::NotText,
            Error::OddHex(digits) => refused@ == ErrorView::OddHex(digits@),
            Error::NotHex(digits) => refused@ == ErrorView::NotHex(digits@),
            Error::Endless => refused@ == ErrorView::Endless,
        },
{
}

} // verus!
