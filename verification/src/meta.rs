//! Metadata, permissions, file types and directory entries, as handed out
//! by an archive. Everything in an archive is read only, and its time stamps
//! are the Unix epoch.
use crate::error::Error;
use crate::path::{listed_name_of, pushed_path};
use vstd::prelude::*;

verus! {

/// `std::time::SystemTime`, the type of the time stamps handed out.
#[verifier::external_type_specification]
#[verifier::external_body]
pub struct ExSystemTime(std::time::SystemTime);

/// Calls nothing but reads the constant `std::time::SystemTime::UNIX_EPOCH`.
/// No clause states which time it returns: Verus sees nothing inside a
/// `SystemTime`.
#[verifier::external_body]
fn unix_epoch() -> std::time::SystemTime {
    std::time::SystemTime::UNIX_EPOCH
}

/// A structure representing a type of file with accessors for each file
/// type: `FileType(true)` is a file, `FileType(false)` a directory.
#[derive(Copy, Clone, PartialEq, Eq, Hash, Debug, Structural)]
pub struct FileType(pub bool);

/// Metadata information about a file or directory: its length (0 for a
/// directory) and its type.
#[derive(Clone, PartialEq, Eq, Debug, Structural)]
pub struct Metadata(pub u64, pub FileType);

/// Representation of the permissions on a file: always read only.
#[derive(Clone, PartialEq, Eq, Debug, Structural)]
pub struct Permissions;

/// An entry of a directory listing.
#[derive(Clone, Debug)]
pub struct DirEntry {
    /// The full path of the entry, relative to the archive's root.
    pub path: String,
    pub is_file: bool,
    pub file_size: u64,
}

/// The entries of a directory listing, subdirectories first, then files.
#[derive(Debug)]
pub struct ReadDir {
    pub data: Vec<Result<DirEntry, Error>>,
}

impl FileType {
    pub fn is_dir(&self) -> (r: bool)
        ensures
            r == !self.0,
    {
        !self.0
    }

    pub fn is_file(&self) -> (r: bool)
        ensures
            r == self.0,
    {
        self.0
    }

    /// An archive holds no symbolic links.
    pub fn is_symlink(&self) -> (r: bool)
        ensures
            r == false,
    {
        false
    }
}

impl Permissions {
    /// An archive is read only.
    pub fn readonly(&self) -> (r: bool)
        ensures
            r == true,
    {
        true
    }
}

impl Metadata {
    pub fn file_type(&self) -> (r: FileType)
        ensures
            r == self.1,
    {
        self.1
    }

    pub fn is_dir(&self) -> (r: bool)
        ensures
            r == !self.1.0,
    {
        self.file_type().is_dir()
    }

    pub fn is_file(&self) -> (r: bool)
        ensures
            r == self.1.0,
    {
        self.file_type().is_file()
    }

    pub fn is_symlink(&self) -> (r: bool)
        ensures
            r == false,
    {
        self.file_type().is_symlink()
    }

    /// The size in bytes (0 for a directory).
    pub fn len(&self) -> (r: u64)
        ensures
            r == self.0,
    {
        self.0
    }

    pub fn is_empty(&self) -> (r: bool)
        ensures
            r == (self.0 == 0),
    {
        self.0 == 0
    }

    pub fn permissions(&self) -> (r: Permissions)
        ensures
            r == Permissions,
    {
        Permissions
    }

    /// Always the Unix epoch.
    pub fn modified(&self) -> (r: Result<std::time::SystemTime, Error>)
        ensures
            r is Ok,
    {
        Ok(unix_epoch())
    }

    /// Always the Unix epoch.
    pub fn accessed(&self) -> (r: Result<std::time::SystemTime, Error>)
        ensures
            r is Ok,
    {
        Ok(unix_epoch())
    }

    /// Always the Unix epoch.
    pub fn created(&self) -> (r: Result<std::time::SystemTime, Error>)
        ensures
            r is Ok,
    {
        Ok(unix_epoch())
    }
}

impl DirEntry {
    /// An entry for `name` listed in the directory at `dir_path`.
    pub open spec fn listed(dir_path: Seq<char>, name: Seq<char>, is_file: bool, file_size: u64, e: DirEntry) -> bool {
        &&& e.path@ == pushed_path(dir_path, name)
        &&& e.is_file == is_file
        &&& e.file_size == file_size
    }

    /// `r` is an entry for `name` listed in the directory at `dir_path`.
    pub open spec fn listed_ok(r: Result<DirEntry, Error>, dir_path: Seq<char>, name: Seq<char>, is_file: bool, file_size: u64) -> bool {
        r matches Ok(e) && DirEntry::listed(dir_path, name, is_file, file_size, e)
    }

    /// The full path of this entry, relative to the archive's root: the
    /// listed directory's path joined with the entry's name.
    pub fn path(&self) -> (r: String)
        ensures
            r@ == self.path@,
    {
        self.path.clone()
    }

    /// The entry's final path component, or `..` where it has none.
    pub fn file_name(&self) -> (r: String)
        ensures
            r@ == listed_name_of(self.path@),
    {
        crate::path::listed_name(self.path.as_str())
    }

    pub fn metadata(&self) -> (r: Result<Metadata, Error>)
        ensures
            r matches Ok(m) && m == Metadata(self.file_size, FileType(self.is_file)),
    {
        let file_type = match self.file_type() {
            Ok(t) => t,
            Err(e) => return Err(e),
        };
        Ok(Metadata(self.file_size, file_type))
    }

    pub fn file_type(&self) -> (r: Result<FileType, Error>)
        ensures
            r matches Ok(t) && t == FileType(self.is_file),
    {
        Ok(FileType(self.is_file))
    }
}

impl ReadDir {
    /// The listed entries, in order.
    pub fn into_entries(self) -> (r: Vec<Result<DirEntry, Error>>)
        ensures
            r@ == self.data@,
    {
        self.data
    }
}

} // verus!
