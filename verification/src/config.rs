//! Repository configuration: the identifier of the root folder.
//!
//! The configuration is persisted as text; the root identifier is written
//! in its canonical textual form and must come back through the canonical
//! identifier parser. A malformed value fails loading outright — it is
//! never silently substituted.

use vstd::prelude::*;

use crate::doc_id::{parse_doc_id, parsed_doc_id, DocId};

verus! {

/// Why a configuration could not be loaded.
#[derive(Clone, Copy, PartialEq, Eq, Structural, Debug)]
pub enum ConfigError {
    /// The root folder identifier is not a well-formed identifier.
    BadRootId,
}

/// The parsed repository configuration.
pub struct RepoConfig {
    root_folder_id: DocId,
}

impl View for RepoConfig {
    type V = Seq<u8>;

    closed spec fn view(&self) -> Seq<u8> {
        self.root_folder_id@
    }
}

impl RepoConfig {
    /// A configuration with the given root folder identifier.
    pub fn new(root_folder_id: DocId) -> (r: RepoConfig)
        ensures
            r@ == root_folder_id@,
    {
        RepoConfig { root_folder_id }
    }

    /// Parse the textual form of the root folder identifier, exactly as it
    /// stands in the configuration file. Text that the canonical parser
    /// rejects fails loading with [`ConfigError::BadRootId`].
    pub fn from_root_text(text: &str) -> (r: Result<RepoConfig, ConfigError>)
        ensures
            parsed_doc_id(text@) matches Some(b) ==> (r matches Ok(c) && c@ == b),
            parsed_doc_id(text@) is None ==> r == Err::<RepoConfig, ConfigError>(
                ConfigError::BadRootId,
            ),
    {
        match parse_doc_id(text) {
            Some(id) => Ok(RepoConfig { root_folder_id: id }),
            None => Err(ConfigError::BadRootId),
        }
    }

    /// The configured root folder identifier.
    pub fn root_folder_id(&self) -> (r: &DocId)
        ensures
            r@ == self@,
    {
        &self.root_folder_id
    }
}

} // verus!
