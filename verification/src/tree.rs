//! The tree that a scan builds: directories, and the files directly in them.

use crate::names::extension;
use crate::names::extension_of;
use crate::time::Timestamp;
use vstd::prelude::*;

verus! {

/// A file found directly inside a scanned directory.
#[derive(Debug, PartialEq, Eq)]
pub struct File {
    /// The file's base name, with its extension.
    pub name: String,
    /// The file's type: what follows the last dot of its name.
    pub filetype: String,
    /// When the file was created.
    pub created_at: Timestamp,
    /// When the file was last changed.
    pub modified_at: Timestamp,
}

/// What a `File` holds, as plain values.
pub struct FileView {
    pub name: Seq<char>,
    pub filetype: Seq<char>,
    pub created_at: Timestamp,
    pub modified_at: Timestamp,
}

impl View for File {
    type V = FileView;

    open spec fn view(&self) -> FileView {
        FileView {
            name: self.name@,
            filetype: self.filetype@,
            created_at: self.created_at,
            modified_at: self.modified_at,
        }
    }
}

/// The entry of a tree for the file `name` with the two times given.
pub open spec fn file_entry(name: Seq<char>, created_at: Timestamp, modified_at: Timestamp) -> FileView {
    FileView { name, filetype: extension(name), created_at, modified_at }
}

impl File {
    /// Describes the file `name`, reading its type from the name.
    pub fn new(name: &str, created_at: Timestamp, modified_at: Timestamp) -> (r: File)
        ensures
            r@ == file_entry(name@, created_at, modified_at),
    {
        File {
            name: String::from_str(name),
            filetype: extension_of(name),
            created_at,
            modified_at,
        }
    }
}

/// A scanned directory.
#[derive(Debug, PartialEq, Eq)]
pub struct Directory {
    /// The path that this node stands for.
    pub path: String,
    /// The files directly inside the directory.
    pub files: Vec<File>,
    /// The scanned subdirectories: `None` where there is none, never empty.
    pub directories: Option<Vec<Directory>>,
    /// Whether the scan goes down into subdirectories.
    pub should_scan_subdirectories: bool,
}

impl Directory {
    /// The subdirectories of the node, none where `directories` is `None`.
    pub open spec fn children(self) -> Seq<Directory> {
        match self.directories {
            Some(v) => v@,
            None => Seq::empty(),
        }
    }

    /// The node holds its subdirectories as the tree's shape asks: a list that
    /// is there is not empty.
    pub open spec fn well_formed(self) -> bool {
        self.directories matches Some(v) ==> v@.len() > 0
    }

    /// A node for `path` that holds nothing yet and whose scan goes down into
    /// subdirectories.
    pub fn new(path: &str) -> (r: Directory)
        ensures
            r.path@ == path@,
            r.files@.len() == 0,
            r.directories is None,
            r.should_scan_subdirectories,
            r.well_formed(),
    {
        Directory {
            path: String::from_str(path),
            files: Vec::new(),
            directories: None,
            should_scan_subdirectories: true,
        }
    }

    /// Appends `child` to the node's subdirectories.
    pub fn adopt(&mut self, child: Directory)
        ensures
            final(self).children() == old(self).children().push(child),
            final(self).directories is Some,
            final(self).well_formed(),
            final(self).path == old(self).path,
            final(self).files == old(self).files,
            final(self).should_scan_subdirectories == old(self).should_scan_subdirectories,
    {
        let held = self.directories.take();
        let mut list = match held {
            Some(v) => v,
            None => Vec::new(),
        };
        list.push(child);
        self.directories = Some(list);
    }
}

} // verus!
