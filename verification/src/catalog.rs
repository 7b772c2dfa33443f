//! Records describing stored containers: one video, or a playlist of
//! videos, as the remote collaborator lists them.

use std::collections::HashMap;
use vstd::prelude::*;
use vstd::string::StringExecFns;

verus! {

/// One entry of the remote directory: a single stored video, or a playlist
/// grouping several, each mapping a title to its remote identifier.
pub enum DirectoryEntry {
    /// A stored video, by remote identifier.
    Video(String),
    /// A playlist: its remote identifier and its videos, title to
    /// identifier.
    Playlist {
        /// Remote identifier of the playlist.
        id: String,
        /// The playlist's videos, title to remote identifier.
        videos: HashMap<String, String>,
    },
}

/// A finished container file ready for the remote collaborator: its path
/// and the descriptive metadata carried along.
pub struct Mp4 {
    /// Path of the container file.
    pub path: String,
    /// Display title: the payload's file name.
    pub title: String,
    /// Type tag: the payload's extension.
    pub datatype: String,
    /// Payload size in bytes.
    pub size: u32,
}

impl Mp4 {
    /// Builds the container record from its path and metadata.
    pub fn new(path: &str, title: &str, datatype: &str, size: u32) -> (m: Mp4)
        ensures
            m.path@ == path@,
            m.title@ == title@,
            m.datatype@ == datatype@,
            m.size == size,
    {
        Mp4 {
            path: String::from_str(path),
            title: String::from_str(title),
            datatype: String::from_str(datatype),
            size,
        }
    }
}

} // verus!
