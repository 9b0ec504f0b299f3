//! Indexing of a local mirror of IETF documents: file-name identities,
//! metadata extraction from document heads, and newest-version listings.

pub mod cmd;
pub mod collection;
pub mod document;
pub mod errors;
pub mod identity;
pub mod metadata;
pub mod style;
pub mod text;

pub use errors::{Error, Result};
pub use identity::parse_file_name;
pub use metadata::{AttrValue, MetaTag, Metadata, MetadataAttr};
pub use document::{Document, DocumentView};
pub use collection::Collection;
pub use cmd::{index_action, index_selection, summary_action, sync_action, sync_args, Action, ArgProvider, CmdExec, Command};
