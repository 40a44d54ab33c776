//! One scan: from what a walk reports to the records of its entries.

use vstd::prelude::*;
use crate::entry::{
    EntryKind, EntryMetadata, FileStats, count_kind, file_bytes, lemma_count_kind_bounded,
    lemma_file_bytes_prefix, record_of,
};

verus! {

/// What a walk reports at one step.
#[derive(Debug)]
pub enum WalkEvent {
    /// An entry could not be enumerated. `depth` counts directories below
    /// the root of the walk; at depth 0 it is the root itself that could not
    /// be reached or opened.
    Unreadable { depth: usize },
    /// An entry was enumerated, and its metadata could not be read.
    NoMetadata { path: String },
    /// An entry with its metadata.
    Entry { path: String, metadata: EntryMetadata },
}

/// Why a scan failed.
#[derive(Debug, PartialEq, Eq)]
pub enum ScanError {
    /// The root of the walk does not exist or cannot be read.
    RootUnreadable,
    /// The metadata of the entry at `path` could not be read.
    MetadataUnavailable { path: String },
}

/// The running counts of a completed scan.
#[derive(Debug, Clone, Copy, PartialEq, Eq, Structural)]
pub struct ScanSummary {
    /// Regular files seen.
    pub file_count: usize,
    /// Directories seen, the root among them.
    pub dir_count: usize,
    /// Bytes in regular files.
    pub total_size: u64,
}

impl WalkEvent {
    /// Whether this event ends the scan. An entry below the root that could
    /// not be enumerated is passed over; an unreadable root, or metadata that
    /// could not be read, is not.
    pub open spec fn is_fatal(self) -> bool {
        match self {
            WalkEvent::Unreadable { depth } => depth == 0,
            WalkEvent::NoMetadata { .. } => true,
            WalkEvent::Entry { .. } => false,
        }
    }

    /// Whether this event ends the scan, so that a walk may stop at it.
    pub fn ends_scan(&self) -> (fatal: bool)
        ensures
            fatal == self.is_fatal(),
    {
        match self {
            WalkEvent::Unreadable { depth } => *depth == 0,
            WalkEvent::NoMetadata { .. } => true,
            WalkEvent::Entry { .. } => false,
        }
    }

    /// The error that a scan ending at this event reports.
    pub open spec fn failure(self) -> ScanError {
        match self {
            WalkEvent::NoMetadata { path } => ScanError::MetadataUnavailable { path },
            _ => ScanError::RootUnreadable,
        }
    }
}

/// No event of the walk ends the scan.
pub open spec fn all_readable(events: Seq<WalkEvent>) -> bool {
    forall|i: int| 0 <= i < events.len() ==> !(#[trigger] events[i]).is_fatal()
}

/// `at` is the place of the first event that ends the scan.
pub open spec fn first_fatal(events: Seq<WalkEvent>, at: int) -> bool {
    &&& 0 <= at < events.len()
    &&& events[at].is_fatal()
    &&& all_readable(events.take(at))
}

/// The records of the entries that the walk reported with their metadata,
/// in the order of the walk.
pub open spec fn recorded(events: Seq<WalkEvent>) -> Seq<FileStats>
    decreases events.len(),
{
    if events.len() == 0 {
        Seq::empty()
    } else {
        let before = recorded(events.drop_last());
        match events.last() {
            WalkEvent::Entry { path, metadata } => before.push(record_of(path, metadata)),
            _ => before,
        }
    }
}

/// Whether the walk can be scanned: where it holds no fatal event, the sizes
/// of its files add up to no more than a `u64` holds.
pub open spec fn scan_in_range(events: Seq<WalkEvent>) -> bool {
    all_readable(events) ==> file_bytes(recorded(events)) <= u64::MAX
}

/// The entries of one directory tree, as the last scan found them.
pub struct FileSystem {
    pub(crate) root_path: String,
    pub(crate) stats: Vec<FileStats>,
}

impl FileSystem {
    /// The sizes of the files on record fit in a `u64`.
    #[verifier::type_invariant]
    pub open(crate) spec fn in_range(self) -> bool {
        file_bytes(self.stats@) <= u64::MAX
    }

    /// The path that scans of this value start from.
    pub open(crate) spec fn root(self) -> Seq<char> {
        self.root_path@
    }

    /// The records of the last successful scan, in the order of its walk;
    /// empty before the first one.
    pub open(crate) spec fn records(self) -> Seq<FileStats> {
        self.stats@
    }

    /// A value for the tree below `root_path`, with nothing scanned yet.
    pub fn new(root_path: &str) -> (fs: FileSystem)
        ensures
            fs.root() == root_path@,
            fs.records() == Seq::<FileStats>::empty(),
    {
        FileSystem { root_path: root_path.to_owned(), stats: Vec::new() }
    }

    /// Replaces the records by those of a new walk.
    ///
    /// The events are taken in the order of the walk. Entries below the root
    /// that could not be enumerated are passed over. The first fatal event
    /// ends the scan with its error, and leaves no records behind.
    /// Otherwise every entry that came with metadata is on record, and the
    /// summary holds the counts of the whole walk.
    pub fn scan_directory(&mut self, events: Vec<WalkEvent>) -> (result: Result<
        ScanSummary,
        ScanError,
    >)
        requires
            scan_in_range(events@),
        ensures
            final(self).root() == old(self).root(),
            match result {
                Ok(summary) => {
                    &&& all_readable(events@)
                    &&& final(self).records() == recorded(events@)
                    &&& summary.file_count == count_kind(recorded(events@), EntryKind::File)
                    &&& summary.dir_count == count_kind(recorded(events@), EntryKind::Directory)
                    &&& summary.total_size == file_bytes(recorded(events@))
                },
                Err(error) => {
                    &&& final(self).records() == Seq::<FileStats>::empty()
                    &&& exists|at: int| first_fatal(events@, at) && error == events@[at].failure()
                },
            },
    {
        self.stats = Vec::new();
        let mut records: Vec<FileStats> = Vec::new();
        let mut total_size: u128 = 0;
        let mut file_count: usize = 0;
        let mut dir_count: usize = 0;
        let ghost walk = events@;
        let event_count: usize = events.len();
        for event in it: events.into_iter()
            invariant
                it.seq() == walk,
                self.stats@ == Seq::<FileStats>::empty(),
                self.root_path == old(self).root_path,
                all_readable(walk.take(it.index())),
                records@ == recorded(walk.take(it.index())),
                file_count == count_kind(records@, EntryKind::File),
                dir_count == count_kind(records@, EntryKind::Directory),
                total_size == file_bytes(records@),
                records@.len() <= it.index(),
                total_size <= it.index() * u64::MAX,
                walk.len() == event_count,
        {
            let ghost at = it.index();
            proof {
                assert(walk.take(at + 1).drop_last() =~= walk.take(at));
                assert(walk.take(at + 1).last() == walk[at]);
                assert(event == walk[at]);
            }
            match event {
                WalkEvent::Unreadable { depth } => {
                    if depth == 0 {
                        proof {
                            assert(first_fatal(walk, at));
                        }
                        return Err(ScanError::RootUnreadable);
                    }
                },
                WalkEvent::NoMetadata { path } => {
                    proof {
                        assert(first_fatal(walk, at));
                    }
                    return Err(ScanError::MetadataUnavailable { path });
                },
                WalkEvent::Entry { path, metadata } => {
                    let record = FileStats::from_metadata(path, metadata);
                    proof {
                        lemma_count_kind_bounded(records@, EntryKind::File);
                        lemma_count_kind_bounded(records@, EntryKind::Directory);
                        assert(records@.push(record).drop_last() =~= records@);
                        assert(at * u64::MAX + u64::MAX == (at + 1) * u64::MAX) by (nonlinear_arith);
                    }
                    match record.file_type {
                        EntryKind::Directory => {
                            dir_count += 1;
                        },
                        EntryKind::File => {
                            file_count += 1;
                            total_size += record.size as u128;
                        },
                        EntryKind::Other => {},
                    }
                    records.push(record);
                },
            }
            proof {
                assert(all_readable(walk.take(at + 1))) by {
                    assert forall|i: int| 0 <= i < at + 1 implies !(#[trigger] walk.take(
                        at + 1,
                    )[i]).is_fatal() by {
                        if i < at {
                            assert(walk.take(at)[i] == walk[i]);
                        }
                    }
                }
            }
        }
        proof {
            assert(walk.take(walk.len() as int) =~= walk);
        }
        self.stats = records;
        Ok(ScanSummary { file_count, dir_count, total_size: total_size as u64 })
    }

    /// Whether `scan_directory` can take this walk.
    pub fn can_scan(events: &Vec<WalkEvent>) -> (fits: bool)
        ensures
            fits == scan_in_range(events@),
    {
        let mut total_size: u128 = 0;
        let mut at: usize = 0;
        while at < events.len()
            invariant
                at <= events.len(),
                all_readable(events@.take(at as int)),
                total_size == file_bytes(recorded(events@.take(at as int))),
                total_size <= at * u64::MAX,
            decreases events.len() - at,
        {
            proof {
                assert(events@.take(at + 1).drop_last() =~= events@.take(at as int));
                assert(at * u64::MAX + u64::MAX == (at + 1) * u64::MAX) by (nonlinear_arith);
                assert(forall|i: int| 0 <= i < at ==> events@.take(at as int)[i] == events@[i]);
                let before = recorded(events@.take(at as int));
                if let WalkEvent::Entry { path, metadata } = events@[at as int] {
                    assert(before.push(record_of(path, metadata)).drop_last() =~= before);
                }
            }
            match &events[at] {
                WalkEvent::Unreadable { depth } => {
                    if *depth == 0 {
                        return true;
                    }
                },
                WalkEvent::NoMetadata { .. } => {
                    return true;
                },
                WalkEvent::Entry { metadata, .. } => {
                    if !metadata.is_dir && metadata.is_file {
                        total_size += metadata.len as u128;
                    }
                },
            }
            at += 1;
        }
        proof {
            assert(events@.take(events@.len() as int) =~= events@);
        }
        total_size <= u64::MAX as u128
    }

    /// The bytes in the regular files on record: 0 where nothing is.
    pub fn get_directory_size(&self) -> (total: u64)
        ensures
            total == file_bytes(self.records()),
    {
        proof {
            use_type_invariant(self);
        }
        let mut total: u64 = 0;
        let mut at: usize = 0;
        while at < self.stats.len()
            invariant
                at <= self.stats.len(),
                total == file_bytes(self.stats@.take(at as int)),
                file_bytes(self.stats@) <= u64::MAX,
            decreases self.stats.len() - at,
        {
            proof {
                assert(self.stats@.take(at + 1).drop_last() =~= self.stats@.take(at as int));
                lemma_file_bytes_prefix(self.stats@, at + 1);
            }
            if self.stats[at].is_regular_file() {
                total += self.stats[at].size;
            }
            at += 1;
        }
        proof {
            assert(self.stats@.take(self.stats@.len() as int) =~= self.stats@);
        }
        total
    }

    /// The records of the last successful scan.
    pub fn stats(&self) -> (records: &Vec<FileStats>)
        ensures
            records@ == self.records(),
    {
        &self.stats
    }

    /// The path that scans start from.
    pub fn root_path(&self) -> (path: &str)
        ensures
            path@ == self.root(),
    {
        self.root_path.as_str()
    }
}

} // verus!
