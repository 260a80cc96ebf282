//! The errors of the store.

use vstd::prelude::*;
use vstd::string::*;

verus! {

/// What a collection refuses.
#[derive(Clone, Copy, Debug, PartialEq, Eq, Structural)]
pub enum CollectionError {
    /// An object with that name exists and the caller did not ask to replace it.
    PutObjectExistsNoReplace,
    /// No object, or no metadata, is stored under that name.
    ObjectNotFound,
}

impl CollectionError {
    /// The message of the error.
    pub fn message(&self) -> (r: String)
        ensures
            r@ == match *self {
                CollectionError::PutObjectExistsNoReplace => "Object exists with ident, replace=false"@,
                CollectionError::ObjectNotFound => "Object not found"@,
            },
    {
        match self {
            CollectionError::PutObjectExistsNoReplace => "Object exists with ident, replace=false".to_owned(),
            CollectionError::ObjectNotFound => "Object not found".to_owned(),
        }
    }
}

/// Every failure that the store reports. Variants that wrap a failure of the
/// surroundings carry its message as text.
#[derive(Debug)]
pub enum MauveError {
    /// Invalid or missing configuration.
    ConfigError(String),
    /// The HTTP layer failed.
    RocketError(String),
    /// Bytes that should be UTF-8 text are not.
    Utf8Error(String),
    /// The key-value store failed to read or write.
    SledError(String),
    /// An update of one key space could not be carried out, as when the
    /// indexer meets a posting that it cannot read.
    SledTxError(String),
    /// The file system or the network failed.
    IoError(String),
    /// The indexer no longer takes signals.
    SignalError(String),
    /// A label text without `=`.
    InvalidLabel(String),
    /// A collection refused the request.
    CollectionError(CollectionError),
    /// A value in a second binary form could not be read. The store itself
    /// reports none; the variant is there for what wraps the store.
    BincodeError(String),
    /// Stored metadata or a stored posting is not in its binary form.
    CborError(String),
    /// A search ran past its deadline, given in seconds.
    Timeout(u64),
    /// Anything else.
    Oops(String),
}

impl Clone for MauveError {
    fn clone(&self) -> (r: Self)
        ensures
            r == *self,
    {
        match self {
            MauveError::ConfigError(m) => MauveError::ConfigError(m.clone()),
            MauveError::RocketError(m) => MauveError::RocketError(m.clone()),
            MauveError::Utf8Error(m) => MauveError::Utf8Error(m.clone()),
            MauveError::SledError(m) => MauveError::SledError(m.clone()),
            MauveError::SledTxError(m) => MauveError::SledTxError(m.clone()),
            MauveError::IoError(m) => MauveError::IoError(m.clone()),
            MauveError::SignalError(m) => MauveError::SignalError(m.clone()),
            MauveError::InvalidLabel(m) => MauveError::InvalidLabel(m.clone()),
            MauveError::CollectionError(e) => MauveError::CollectionError(*e),
            MauveError::BincodeError(m) => MauveError::BincodeError(m.clone()),
            MauveError::CborError(m) => MauveError::CborError(m.clone()),
            MauveError::Timeout(n) => MauveError::Timeout(*n),
            MauveError::Oops(m) => MauveError::Oops(m.clone()),
        }
    }
}

/// The HTTP status that stands for an error: 404 where an object is not
/// found, 409 where one exists and is not to be replaced, 418 for `Oops`, and
/// 500 for every other error.
pub open spec fn status_of(e: MauveError) -> u16 {
    match e {
        MauveError::CollectionError(CollectionError::ObjectNotFound) => 404,
        MauveError::CollectionError(CollectionError::PutObjectExistsNoReplace) => 409,
        MauveError::Oops(_) => 418,
        _ => 500,
    }
}

/// The message of an error: a word for its kind, then what it carries.
pub open spec fn message_of(e: MauveError) -> Seq<char> {
    match e {
        MauveError::ConfigError(m) => "Config error "@ + m@,
        MauveError::RocketError(m) => "Rocket exploded "@ + m@,
        MauveError::Utf8Error(m) => "Utf8 encoding error: "@ + m@,
        MauveError::SledError(m) => "Sled error "@ + m@,
        MauveError::SledTxError(m) => "Sled tx error "@ + m@,
        MauveError::IoError(m) => "IO error "@ + m@,
        MauveError::SignalError(m) => "Signaling error "@ + m@,
        MauveError::InvalidLabel(m) => "Invalid label string "@ + m@,
        MauveError::CollectionError(CollectionError::PutObjectExistsNoReplace) =>
            "Object exists with ident, replace=false"@,
        MauveError::CollectionError(CollectionError::ObjectNotFound) => "Object not found"@,
        MauveError::BincodeError(m) => "bincode failed "@ + m@,
        MauveError::CborError(m) => "cbor serde "@ + m@,
        MauveError::Timeout(_) => "Query timed out"@,
        MauveError::Oops(m) => "Oopsie "@ + m@,
    }
}

/// A word followed by a text.
fn prefixed(word: &str, m: &String) -> (r: String)
    ensures
        r@ == word@ + m@,
{
    let mut r = word.to_owned();
    r.append(m.as_str());
    r
}

impl MauveError {
    /// The HTTP status that stands for this error.
    pub fn status(&self) -> (r: u16)
        ensures
            r == status_of(*self),
    {
        match self {
            MauveError::CollectionError(CollectionError::ObjectNotFound) => 404,
            MauveError::CollectionError(CollectionError::PutObjectExistsNoReplace) => 409,
            MauveError::Oops(_) => 418,
            _ => 500,
        }
    }

    /// The message of this error.
    pub fn message(&self) -> (r: String)
        ensures
            r@ == message_of(*self),
    {
        match self {
            MauveError::ConfigError(m) => prefixed("Config error ", m),
            MauveError::RocketError(m) => prefixed("Rocket exploded ", m),
            MauveError::Utf8Error(m) => prefixed("Utf8 encoding error: ", m),
            MauveError::SledError(m) => prefixed("Sled error ", m),
            MauveError::SledTxError(m) => prefixed("Sled tx error ", m),
            MauveError::IoError(m) => prefixed("IO error ", m),
            MauveError::SignalError(m) => prefixed("Signaling error ", m),
            MauveError::InvalidLabel(m) => prefixed("Invalid label string ", m),
            MauveError::CollectionError(e) => e.message(),
            MauveError::BincodeError(m) => prefixed("bincode failed ", m),
            MauveError::CborError(m) => prefixed("cbor serde ", m),
            MauveError::Timeout(_) => "Query timed out".to_owned(),
            MauveError::Oops(m) => prefixed("Oopsie ", m),
        }
    }
}

} // verus!
