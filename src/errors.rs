use vstd::prelude::*;

verus! {

/// The I/O failures that the surrounding program reports are carried through
/// unchanged; nothing in this library looks inside them.
#[verifier::external_type_specification]
#[verifier::external_body]
pub struct ExIoError(std::io::Error);

/// Everything that can go wrong while building a listing or a summary.
#[derive(Debug)]
pub enum Error {
    AttributeTypeMismatch(String),
    CliError(String),
    DirectoryReadError(std::io::Error),
    DocumentNotFound(String),
    DocumentParseError(std::io::Error),
    DuplicateAttribute(String),
    ImplementationNotFound(String),
    MetadataNotFound(String),
    MetadataRetrieval(String),
    SyncError(std::io::Error),
    UserDirectories(String),
}

/// A document that cannot be read is reported as unparsable.
impl From<std::io::Error> for Error {
    fn from(err: std::io::Error) -> (r: Self) {
        Error::DocumentParseError(err)
    }
}

impl vstd::std_specs::convert::FromSpecImpl<std::io::Error> for Error {
    open spec fn obeys_from_spec() -> bool {
        true
    }

    open spec fn from_spec(err: std::io::Error) -> Error {
        Error::DocumentParseError(err)
    }
}

pub type Result<T> = std::result::Result<T, Error>;

} // verus!
