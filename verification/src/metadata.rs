//! What is recorded of one entry: [`FileStat`], what a metadata query
//! reports, and [`Metadata`], what a listing says of the entry.

use vstd::prelude::*;

verus! {

/// What a successful metadata query reports about one filesystem entry.
#[derive(Clone, Copy, Debug, PartialEq, Eq)]
pub struct FileStat {
    pub is_dir: bool,
    pub is_file: bool,
    pub is_symlink: bool,
    pub len: u64,
}

/// The mathematical value of a [`Metadata`]: the same fields, the message as
/// a sequence of characters.
pub struct MetadataModel {
    pub is_dir: bool,
    pub is_file: bool,
    pub is_symlink: bool,
    pub size: nat,
    pub status: bool,
    pub message: Option<Seq<char>>,
}

impl MetadataModel {
    /// The metadata of an entry whose query succeeded with `stat`.
    /// A directory reports size 0, anything else its length in bytes.
    pub open spec fn found(stat: FileStat) -> MetadataModel {
        MetadataModel {
            is_dir: stat.is_dir,
            is_file: stat.is_file,
            is_symlink: stat.is_symlink,
            size: if stat.is_dir { 0 } else { stat.len as nat },
            status: true,
            message: None,
        }
    }

    /// The metadata of an entry whose query, or whose listing, failed for
    /// the reason `message`: every type flag false, size 0.
    pub open spec fn failed(message: Seq<char>) -> MetadataModel {
        MetadataModel {
            is_dir: false,
            is_file: false,
            is_symlink: false,
            size: 0,
            status: false,
            message: Some(message),
        }
    }

    /// Either the query succeeded and there is no message, or it failed,
    /// there is a message, and the type and size fields are zeroed.
    pub open spec fn well_formed(self) -> bool {
        &&& self.status <==> self.message is None
        &&& !self.status ==> !self.is_dir && !self.is_file && !self.is_symlink && self.size == 0
        &&& self.is_dir ==> self.size == 0
    }
}

/// What is known about one entry after the filesystem has been asked.
#[derive(Debug, PartialEq, Eq)]
pub struct Metadata {
    pub is_dir: bool,
    pub is_file: bool,
    pub is_symlink: bool,
    pub size: u64,
    pub status: bool,
    pub message: Option<String>,
}

impl DeepView for Metadata {
    type V = MetadataModel;

    open spec fn deep_view(&self) -> MetadataModel {
        MetadataModel {
            is_dir: self.is_dir,
            is_file: self.is_file,
            is_symlink: self.is_symlink,
            size: self.size as nat,
            status: self.status,
            message: self.message.deep_view(),
        }
    }
}

impl View for Metadata {
    type V = MetadataModel;

    open spec fn view(&self) -> MetadataModel {
        self.deep_view()
    }
}

impl Metadata {
    /// Records a successful query.
    pub fn new(stat: &FileStat) -> (metadata: Metadata)
        ensures
            metadata@ == MetadataModel::found(*stat),
            metadata@.well_formed(),
    {
        Metadata {
            is_dir: stat.is_dir,
            is_file: stat.is_file,
            is_symlink: stat.is_symlink,
            size: if stat.is_dir { 0 } else { stat.len },
            status: true,
            message: None,
        }
    }

    /// Records a failed query or a failed listing, with its reason.
    pub fn error(message: String) -> (metadata: Metadata)
        ensures
            metadata@ == MetadataModel::failed(message@),
            metadata@.well_formed(),
    {
        Metadata {
            is_dir: false,
            is_file: false,
            is_symlink: false,
            size: 0,
            status: false,
            message: Some(message),
        }
    }
}

impl Clone for Metadata {
    fn clone(&self) -> (copy: Metadata)
        ensures
            copy@ == self@,
    {
        Metadata {
            is_dir: self.is_dir,
            is_file: self.is_file,
            is_symlink: self.is_symlink,
            size: self.size,
            status: self.status,
            message: match &self.message {
                Some(message) => Some(message.clone()),
                None => None,
            },
        }
    }
}

impl Default for Metadata {
    /// Nothing known yet: every flag false, size 0, no message.
    fn default() -> (metadata: Metadata)
        ensures
            metadata@ == (MetadataModel {
                is_dir: false,
                is_file: false,
                is_symlink: false,
                size: 0,
                status: false,
                message: None,
            }),
    {
        Metadata {
            is_dir: false,
            is_file: false,
            is_symlink: false,
            size: 0,
            status: false,
            message: None,
        }
    }
}

} // verus!
