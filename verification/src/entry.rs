//! The record kept for each entry that a walk visits.

use vstd::prelude::*;

verus! {

/// `std::time::SystemTime`: a point in time as the file system reports it.
/// Records carry it through unread.
#[verifier::external_type_specification]
#[verifier::external_body]
pub struct ExSystemTime(std::time::SystemTime);

/// What kind of file-system object an entry is.
#[derive(Debug, Clone, Copy, PartialEq, Eq, Structural)]
pub enum EntryKind {
    File,
    Directory,
    /// Symbolic links, devices, sockets and whatever else is neither a
    /// regular file nor a directory.
    Other,
}

/// What the metadata of one entry says.
#[derive(Debug, Clone, Copy)]
pub struct EntryMetadata {
    pub is_dir: bool,
    pub is_file: bool,
    /// Length in bytes.
    pub len: u64,
    pub modified: std::time::SystemTime,
}

/// One visited entry.
#[derive(Debug)]
pub struct FileStats {
    /// The path as the walk gave it.
    pub path: String,
    /// Size in bytes; 0 for a directory.
    pub size: u64,
    pub file_type: EntryKind,
    pub last_modified: std::time::SystemTime,
}

/// The kind that a pair of metadata flags stands for: a directory where the
/// directory flag is set, else a regular file where the file flag is set,
/// else `Other`.
pub open spec fn kind_of(is_dir: bool, is_file: bool) -> EntryKind {
    if is_dir {
        EntryKind::Directory
    } else if is_file {
        EntryKind::File
    } else {
        EntryKind::Other
    }
}

impl EntryKind {
    /// Classifies an entry by the two flags of its metadata.
    pub fn classify(is_dir: bool, is_file: bool) -> (kind: EntryKind)
        ensures
            kind == kind_of(is_dir, is_file),
    {
        if is_dir {
            EntryKind::Directory
        } else if is_file {
            EntryKind::File
        } else {
            EntryKind::Other
        }
    }
}

impl FileStats {
    /// The record of an entry at `path` with the given metadata. A
    /// directory is on record with size 0, whatever length its metadata
    /// reports.
    pub fn from_metadata(path: String, metadata: EntryMetadata) -> (record: FileStats)
        ensures
            record == record_of(path, metadata),
    {
        let file_type = EntryKind::classify(metadata.is_dir, metadata.is_file);
        let size: u64 = match file_type {
            EntryKind::Directory => 0,
            _ => metadata.len,
        };
        FileStats { path, size, file_type, last_modified: metadata.modified }
    }

    /// Whether this is the record of a regular file.
    pub open spec fn is_file(self) -> bool {
        self.file_type == EntryKind::File
    }

    /// Whether this is the record of a regular file.
    pub fn is_regular_file(&self) -> (file: bool)
        ensures
            file == self.is_file(),
    {
        self.file_type == EntryKind::File
    }
}

/// The size that an entry is on record with: 0 for a directory, and the
/// length that its metadata reports for a file or any other entry.
pub open spec fn size_of(metadata: EntryMetadata) -> u64 {
    if kind_of(metadata.is_dir, metadata.is_file) == EntryKind::Directory {
        0
    } else {
        metadata.len
    }
}

/// The record that an entry at `path` with the given metadata gets.
pub open spec fn record_of(path: String, metadata: EntryMetadata) -> FileStats {
    FileStats {
        path,
        size: size_of(metadata),
        file_type: kind_of(metadata.is_dir, metadata.is_file),
        last_modified: metadata.modified,
    }
}

/// How many records of `records` are of the given kind.
pub open spec fn count_kind(records: Seq<FileStats>, kind: EntryKind) -> nat
    decreases records.len(),
{
    if records.len() == 0 {
        0
    } else {
        let before = count_kind(records.drop_last(), kind);
        if records.last().file_type == kind {
            before + 1
        } else {
            before
        }
    }
}

/// The sizes of the regular files among `records`, added up. Directories and
/// other entries count for nothing, whatever size they report.
pub open spec fn file_bytes(records: Seq<FileStats>) -> nat
    decreases records.len(),
{
    if records.len() == 0 {
        0
    } else {
        let before = file_bytes(records.drop_last());
        if records.last().is_file() {
            before + records.last().size as nat
        } else {
            before
        }
    }
}

/// No more records are of one kind than there are records.
pub proof fn lemma_count_kind_bounded(records: Seq<FileStats>, kind: EntryKind)
    ensures
        count_kind(records, kind) <= records.len(),
    decreases records.len(),
{
    if records.len() > 0 {
        lemma_count_kind_bounded(records.drop_last(), kind);
    }
}

/// The files of a part of a scan are no larger in sum than those of the
/// whole scan.
pub proof fn lemma_file_bytes_prefix(records: Seq<FileStats>, n: int)
    requires
        0 <= n <= records.len(),
    ensures
        file_bytes(records.take(n)) <= file_bytes(records),
    decreases records.len() - n,
{
    if n < records.len() {
        lemma_file_bytes_prefix(records, n + 1);
        assert(records.take(n + 1).drop_last() =~= records.take(n));
    } else {
        assert(records.take(n) =~= records);
    }
}

} // verus!
