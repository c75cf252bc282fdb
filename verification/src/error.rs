//! The errors of the library.

use vstd::prelude::*;
use capnp::Error as CapnpError;
use crate::text::append;

verus! {

/// The error of the Cap'n Proto library, carried as it is.
#[verifier::external_type_specification]
#[verifier::external_body]
pub struct ExCapnpError(CapnpError);

/// What went wrong.
#[derive(Debug)]
pub enum Error {
    /// A query, or a clause of one, does not follow the grammar.
    Parse(String),
    /// A document could not be taken apart.
    Shred(String),
    /// Cap'n Proto reported an error.
    Capnp(CapnpError),
    /// The storage engine reported an error, with this message.
    Rocks(String),
}

/// What the description of a Cap'n Proto error reads.
pub uninterp spec fn capnp_description(err: CapnpError) -> Seq<char>;

/// Calls `description` of `std::error::Error` on a Cap'n Proto error, a text that the
/// error holds and that is here called `capnp_description`.
#[verifier::external_body]
#[allow(deprecated)]
fn describe_capnp(err: &CapnpError) -> (r: &str)
    ensures
        r@ == capnp_description(*err),
{
    std::error::Error::description(err)
}

/// What a Cap'n Proto error reads when it is displayed.
pub uninterp spec fn capnp_display(err: CapnpError) -> Seq<char>;

/// Calls `to_string` on a Cap'n Proto error: the text of its `Display`, a function of
/// the error alone that is here called `capnp_display`.
#[verifier::external_body]
fn display_capnp(err: &CapnpError) -> (r: String)
    ensures
        r@ == capnp_display(*err),
{
    err.to_string()
}

impl Error {
    /// The short description of the error.
    pub open spec fn described(&self) -> Seq<char> {
        match self {
            Error::Parse(description) => description@,
            Error::Shred(description) => description@,
            Error::Capnp(err) => capnp_description(*err),
            Error::Rocks(_) => "This is an rocksdb error"@,
        }
    }

    /// The text of the error for a reader, which names where the error comes from.
    pub open spec fn displayed(&self) -> Seq<char> {
        match self {
            Error::Parse(err) => "Parse error: "@ + err@,
            Error::Shred(err) => "Shred error: "@ + err@,
            Error::Capnp(err) => "Capnproto error: "@ + capnp_display(*err),
            Error::Rocks(err) => "RocksDB error: "@ + err@,
        }
    }

    /// Returns the short description of the error.
    pub fn description(&self) -> (r: &str)
        ensures
            r@ == self.described(),
    {
        match self {
            Error::Parse(description) => description.as_str(),
            Error::Shred(description) => description.as_str(),
            Error::Capnp(err) => describe_capnp(err),
            Error::Rocks(_) => "This is an rocksdb error",
        }
    }

    /// Returns the error beneath this one: the one of Cap'n Proto, where there is one.
    pub fn cause(&self) -> (r: Option<&CapnpError>)
        ensures
            r == (match self {
                Error::Capnp(err) => Some(err),
                _ => None,
            }),
    {
        match self {
            Error::Parse(_) => None,
            Error::Shred(_) => None,
            Error::Capnp(err) => Some(err),
            Error::Rocks(_) => None,
        }
    }

    /// Returns the text of the error for a reader.
    pub fn to_text(&self) -> (r: String)
        ensures
            r@ == self.displayed(),
    {
        match self {
            Error::Parse(err) => append("Parse error: ", err.as_str()),
            Error::Shred(err) => append("Shred error: ", err.as_str()),
            Error::Capnp(err) => append("Capnproto error: ", display_capnp(err).as_str()),
            Error::Rocks(err) => append("RocksDB error: ", err.as_str()),
        }
    }
}

impl From<CapnpError> for Error {
    fn from(err: CapnpError) -> (r: Error) {
        Error::Capnp(err)
    }
}

impl vstd::std_specs::convert::FromSpecImpl<CapnpError> for Error {
    open spec fn obeys_from_spec() -> bool {
        true
    }

    open spec fn from_spec(err: CapnpError) -> Error {
        Error::Capnp(err)
    }
}

} // verus!
