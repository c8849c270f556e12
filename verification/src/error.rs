//! Error type of the library.
//!
//! [`RustytreeError`] gathers the ways in which opening and walking a store can
//! fail. [`RustytreeError::py_exception`] says which Python exception each of
//! them becomes, and [`RustytreeError::message`] gives its text.

use crate::text;
use icechunk::session::SessionError;
use vstd::prelude::*;
use vstd::string::*;

verus! {

/// An error of the operating system or of a stream.
#[verifier::external_type_specification]
#[verifier::external_body]
pub struct ExIoError(std::io::Error);

/// icechunk's error wrapper.
#[verifier::external_type_specification]
#[verifier::external_body]
#[verifier::reject_recursive_types(E)]
pub struct ExICError<E>(icechunk::error::ICError<E>);

/// The kinds of failure of an icechunk session.
#[verifier::external_type_specification]
#[verifier::external_body]
pub struct ExSessionErrorKind(icechunk::session::SessionErrorKind);

/// Top-level error type.
#[derive(Debug)]
pub enum RustytreeError {
    /// Underlying I/O failure (filesystem, socket, etc.).
    Io(std::io::Error),
    /// A key (e.g. group path or chunk coordinate) was not found in the store.
    NotFound(String),
    /// Caller-supplied input was rejected (malformed URL, invalid kwargs, etc.).
    InvalidInput(String),
    /// Bytes that should hold a serialised icechunk `Session` do not.
    IcechunkSession(SessionError),
    /// Any other failure of the crates underneath.
    Other(String),
}

/// The Python exception types that errors surface as.
#[derive(Clone, Copy, Debug, PartialEq, Eq, Structural)]
pub enum PyException {
    OsError,
    KeyError,
    ValueError,
    IndexError,
    NotImplementedError,
    RuntimeError,
}

/// What failed in a store underneath.
#[derive(Clone, Copy, Debug, PartialEq, Eq, Structural)]
pub enum FailureKind {
    /// The store holds nothing at the place.
    Missing,
    /// The filesystem or the network failed.
    Storage,
    /// Anything else.
    Other,
}

/// The text that an I/O error was made from, where it was made from one.
pub uninterp spec fn payload_text(err: std::io::Error) -> Option<Seq<char>>;

/// `std::io::Error::other`. Claimed: the error contains the text that it is made
/// from.
#[verifier::external_body]
fn io_error(message: String) -> (r: std::io::Error)
    ensures
        payload_text(r) == Some(message@),
{
    std::io::Error::other(message)
}

/// `err` is the error for a failure of that kind at `place`, with that message:
/// what is missing is named, and what the filesystem or the network did is an
/// I/O error.
pub open spec fn is_failure(
    err: RustytreeError,
    kind: FailureKind,
    place: Seq<char>,
    message: Seq<char>,
) -> bool {
    match kind {
        FailureKind::Missing => err matches RustytreeError::NotFound(m) && m@ == place,
        FailureKind::Storage => err matches RustytreeError::Io(e) && payload_text(e) == Some(
            message,
        ),
        FailureKind::Other => err matches RustytreeError::Other(m) && m@ == message,
    }
}

/// The error for a failure of that kind at `place`.
pub fn failure(kind: FailureKind, place: &str, message: String) -> (r: RustytreeError)
    ensures
        is_failure(r, kind, place@, message@),
{
    match kind {
        FailureKind::Missing => RustytreeError::NotFound(place.to_owned()),
        FailureKind::Storage => RustytreeError::Io(io_error(message)),
        FailureKind::Other => RustytreeError::Other(message),
    }
}

/// The text of `std::io::Error`, through its `Display`. Claimed: of an error that
/// was made from a text it is that text. What other errors say depends on the
/// platform and its language, so nothing is claimed of it.
#[verifier::external_body]
fn io_error_text(err: &std::io::Error) -> (r: String)
    ensures
        payload_text(*err) matches Some(t) ==> r@ == t,
{
    err.to_string()
}

/// The text of icechunk's `SessionError`, through its `Display`. It carries the
/// trace of the spans that were open when the error arose, so nothing is
/// claimed of it.
#[verifier::external_body]
pub(crate) fn session_error_text(err: &SessionError) -> (r: String) {
    err.to_string()
}

/// The Python exception that an error becomes.
pub open spec fn exception_of(err: RustytreeError) -> PyException {
    match err {
        RustytreeError::Io(_) => PyException::OsError,
        RustytreeError::NotFound(_) => PyException::KeyError,
        RustytreeError::InvalidInput(_) => PyException::ValueError,
        RustytreeError::IcechunkSession(_) => PyException::ValueError,
        RustytreeError::Other(_) => PyException::RuntimeError,
    }
}

/// What stands before the text of an error in its message.
pub open spec fn message_prefix(err: RustytreeError) -> Seq<char> {
    match err {
        RustytreeError::Io(_) => "I/O error: "@,
        RustytreeError::NotFound(_) => "not found: "@,
        RustytreeError::InvalidInput(_) => "invalid input: "@,
        RustytreeError::IcechunkSession(_) => "icechunk session: "@,
        RustytreeError::Other(_) => Seq::<char>::empty(),
    }
}

impl RustytreeError {
    /// The message of the error, where `underlying` is the text of the I/O or
    /// session error that it wraps, if it wraps one.
    pub fn message_with(&self, underlying: &str) -> (r: String)
        ensures
            r@ == (match *self {
                RustytreeError::Io(_) => "I/O error: "@ + underlying@,
                RustytreeError::NotFound(s) => "not found: "@ + s@,
                RustytreeError::InvalidInput(s) => "invalid input: "@ + s@,
                RustytreeError::IcechunkSession(_) => "icechunk session: "@ + underlying@,
                RustytreeError::Other(s) => s@,
            }),
            r@ == message_prefix(*self) + (match *self {
                RustytreeError::NotFound(s) => s@,
                RustytreeError::InvalidInput(s) => s@,
                RustytreeError::Other(s) => s@,
                _ => underlying@,
            }),
    {
        match self {
            RustytreeError::Io(_) => text::joined("I/O error: ", underlying),
            RustytreeError::NotFound(s) => text::joined("not found: ", s.as_str()),
            RustytreeError::InvalidInput(s) => text::joined("invalid input: ", s.as_str()),
            RustytreeError::IcechunkSession(_) => text::joined("icechunk session: ", underlying),
            RustytreeError::Other(s) => s.clone(),
        }
    }

    /// The message of the error.
    ///
    /// After the prefixes of an I/O error and of a session error stands what
    /// the error underneath says of itself.
    pub fn message(&self) -> (r: String)
        ensures
            match *self {
                RustytreeError::Io(e) => {
                    &&& text::starts_with(r@, "I/O error: "@)
                    &&& payload_text(e) matches Some(t) ==> r@ == "I/O error: "@ + t
                },
                RustytreeError::NotFound(s) => r@ == "not found: "@ + s@,
                RustytreeError::InvalidInput(s) => r@ == "invalid input: "@ + s@,
                RustytreeError::IcechunkSession(_) => text::starts_with(r@, "icechunk session: "@),
                RustytreeError::Other(s) => r@ == s@,
            },
    {
        let underlying: String = match self {
            RustytreeError::Io(err) => io_error_text(err),
            RustytreeError::IcechunkSession(err) => session_error_text(err),
            _ => String::new(),
        };
        proof {
            text::lemma_prefix_of_join("I/O error: "@, underlying@);
            text::lemma_prefix_of_join("icechunk session: "@, underlying@);
        }
        self.message_with(underlying.as_str())
    }

    /// The Python exception that the error becomes.
    pub fn py_exception(&self) -> (r: PyException)
        ensures
            r == (match *self {
                RustytreeError::Io(_) => PyException::OsError,
                RustytreeError::NotFound(_) => PyException::KeyError,
                RustytreeError::InvalidInput(_) => PyException::ValueError,
                RustytreeError::IcechunkSession(_) => PyException::ValueError,
                RustytreeError::Other(_) => PyException::RuntimeError,
            }),
            r == exception_of(*self),
    {
        match self {
            RustytreeError::Io(_) => PyException::OsError,
            RustytreeError::NotFound(_) => PyException::KeyError,
            RustytreeError::InvalidInput(_) | RustytreeError::IcechunkSession(_) => {
                PyException::ValueError
            },
            RustytreeError::Other(_) => PyException::RuntimeError,
        }
    }
}

impl From<std::io::Error> for RustytreeError {
    fn from(err: std::io::Error) -> (r: Self) {
        RustytreeError::Io(err)
    }
}

impl vstd::std_specs::convert::FromSpecImpl<std::io::Error> for RustytreeError {
    open spec fn obeys_from_spec() -> bool {
        true
    }

    open spec fn from_spec(err: std::io::Error) -> Self {
        RustytreeError::Io(err)
    }
}

impl From<SessionError> for RustytreeError {
    fn from(err: SessionError) -> (r: Self) {
        RustytreeError::IcechunkSession(err)
    }
}

impl vstd::std_specs::convert::FromSpecImpl<SessionError> for RustytreeError {
    open spec fn obeys_from_spec() -> bool {
        true
    }

    open spec fn from_spec(err: SessionError) -> Self {
        RustytreeError::IcechunkSession(err)
    }
}

// ---------------------------------------------------------------------------
// Laws
// ---------------------------------------------------------------------------

/// What failed decides what the error is: something missing is not found, by its
/// place; a failure of the storage is an I/O error and any other an error of its
/// own, both with the message.
pub proof fn law_failure_decides_the_error(
    err: RustytreeError,
    place: Seq<char>,
    message: Seq<char>,
)
    ensures
        is_failure(err, FailureKind::Missing, place, message) <==> (err matches
            RustytreeError::NotFound(m) && m@ == place),
        is_failure(err, FailureKind::Storage, place, message) <==> (err matches RustytreeError::Io(
            e,
        ) && payload_text(e) == Some(message)),
        is_failure(err, FailureKind::Other, place, message) <==> (err matches RustytreeError::Other(
            m,
        ) && m@ == message),
{
}

/// What a caller did wrong is a `ValueError` in Python, what is missing a `KeyError`,
/// what the system did an `OSError`; anything else is a `RuntimeError`.
pub proof fn law_each_error_has_its_exception(err: RustytreeError)
    ensures
        exception_of(err) == PyException::OsError <==> err is Io,
        exception_of(err) == PyException::KeyError <==> err is NotFound,
        exception_of(err) == PyException::ValueError <==> err is InvalidInput
            || err is IcechunkSession,
        exception_of(err) == PyException::RuntimeError <==> err is Other,
{
}

/// The kind of an error alone decides how its message begins, and no kind begins
/// as another does.
pub proof fn law_kind_decides_how_a_message_begins(a: RustytreeError, b: RustytreeError)
    ensures
        message_prefix(a) == message_prefix(b) <==> (a is Io && b is Io) || (a is NotFound
            && b is NotFound) || (a is InvalidInput && b is InvalidInput) || (a is IcechunkSession
            && b is IcechunkSession) || (a is Other && b is Other),
{
    reveal_strlit("I/O error: ");
    reveal_strlit("not found: ");
    reveal_strlit("invalid input: ");
    reveal_strlit("icechunk session: ");
    assert("I/O error: "@.len() == 11 && "I/O error: "@[0] == 'I');
    assert("not found: "@.len() == 11 && "not found: "@[0] == 'n');
    assert("invalid input: "@.len() == 15);
    assert("icechunk session: "@.len() == 18);
}

} // verus!
