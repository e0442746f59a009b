//! Core data types of the virtual file system: identifiers, timestamps,
//! metadata, extents, directory entries, inodes, the persisted header,
//! checkpoints, the record catalog, and the error type.

use vstd::prelude::*;

verus! {

/// Advisory block size recorded in the backing-store header.
pub const DEFAULT_BLOCK_SIZE: u32 = 4096;

/// A point in time, stored as nanoseconds since the Unix epoch.
/// Negative values represent pre-epoch times.
#[derive(Debug, Clone, Copy, PartialEq, Eq, PartialOrd, Ord, Structural)]
pub struct Timestamp(pub i128);

impl Timestamp {
    /// Relies on `std::time::SystemTime::now` (its result converted to
    /// nanoseconds with `duration_since` and `as_nanos`): the current
    /// wall-clock time. Nothing is assumed about the returned value.
    #[verifier::external_body]
    pub fn now() -> Timestamp {
        match std::time::SystemTime::now().duration_since(std::time::UNIX_EPOCH) {
            Ok(d) => Timestamp(d.as_nanos() as i128),
            Err(e) => Timestamp(-(e.duration().as_nanos() as i128)),
        }
    }
}

/// Opaque 64-bit inode handle. Id 1 is the root directory; id 0 is invalid.
#[derive(Debug, Clone, Copy, PartialEq, Eq, Hash, Structural)]
pub struct InodeId(pub u64);

/// Whether an inode is a plain file or a directory.
#[derive(Debug, Clone, Copy, PartialEq, Eq, Structural)]
pub enum NodeKind {
    File,
    Dir,
}

/// Per-inode metadata: logical size and two timestamps.
#[derive(Debug, Clone, Copy, PartialEq, Eq, Structural)]
pub struct Metadata {
    pub size: u64,
    pub created_at: Timestamp,
    pub modified_at: Timestamp,
}

/// A contiguous logical range of a file mapped to bytes of the backing store.
#[derive(Debug, Clone, Copy, PartialEq, Eq, Structural)]
pub struct Extent {
    /// Logical offset within the file.
    pub logical_offset: u64,
    /// Offset inside the backing store where this extent's bytes begin.
    pub file_offset: u64,
    pub len: u64,
}

/// File data is stored as a list of extents, in append order.
pub type ExtentList = Vec<Extent>;

/// A directory entry: one name under one parent, naming a child inode.
#[derive(Debug, Clone, PartialEq, Eq)]
pub struct DirEntry {
    pub parent: InodeId,
    pub inode: InodeId,
    pub name: String,
    pub kind: NodeKind,
}

/// Mathematical view of a [`DirEntry`].
pub struct DirEntryView {
    pub parent: InodeId,
    pub inode: InodeId,
    pub name: Seq<char>,
    pub kind: NodeKind,
}

impl View for DirEntry {
    type V = DirEntryView;

    open spec fn view(&self) -> DirEntryView {
        DirEntryView { parent: self.parent, inode: self.inode, name: self.name@, kind: self.kind }
    }
}

/// In-memory inode representation reconstructed during mount/replay.
#[derive(Debug, Clone)]
pub struct Inode {
    pub id: InodeId,
    pub parent: Option<InodeId>,
    pub name: String,
    pub kind: NodeKind,
    pub metadata: Metadata,
    pub extents: ExtentList,
}

/// Mathematical view of an [`Inode`] or an [`InodeSnapshot`].
pub struct InodeView {
    pub id: InodeId,
    pub parent: Option<InodeId>,
    pub name: Seq<char>,
    pub kind: NodeKind,
    pub metadata: Metadata,
    pub extents: Seq<Extent>,
}

impl View for Inode {
    type V = InodeView;

    open spec fn view(&self) -> InodeView {
        InodeView {
            id: self.id,
            parent: self.parent,
            name: self.name@,
            kind: self.kind,
            metadata: self.metadata,
            extents: self.extents@,
        }
    }
}

/// Header persisted in the first 24 bytes of the backing store.
#[derive(Debug, Clone, PartialEq, Eq)]
pub struct Header {
    pub magic: [u8; 8],
    pub version: u32,
    pub block_size: u32,
    pub root: InodeId,
}

/// Snapshot of an inode as persisted inside records.
#[derive(Debug, Clone, PartialEq)]
pub struct InodeSnapshot {
    pub id: InodeId,
    pub parent: Option<InodeId>,
    pub name: String,
    pub kind: NodeKind,
    pub metadata: Metadata,
    pub extents: ExtentList,
}

impl View for InodeSnapshot {
    type V = InodeView;

    open spec fn view(&self) -> InodeView {
        InodeView {
            id: self.id,
            parent: self.parent,
            name: self.name@,
            kind: self.kind,
            metadata: self.metadata,
            extents: self.extents@,
        }
    }
}

/// Summary of the live inode table, folded into the log so later mounts
/// can skip prior history.
#[derive(Debug, Clone, PartialEq)]
pub struct Checkpoint {
    pub next_inode: InodeId,
    pub free_extents: ExtentList,
    pub inodes: Vec<InodeSnapshot>,
}

/// Mathematical view of a [`Checkpoint`].
pub struct CheckpointView {
    pub next_inode: InodeId,
    pub free_extents: Seq<Extent>,
    pub inodes: Seq<InodeView>,
}

impl View for Checkpoint {
    type V = CheckpointView;

    open spec fn view(&self) -> CheckpointView {
        CheckpointView {
            next_inode: self.next_inode,
            free_extents: self.free_extents@,
            inodes: self.inodes@.map_values(|s: InodeSnapshot| s@),
        }
    }
}

/// Operations persisted in the log.
#[derive(Debug, Clone, PartialEq)]
pub enum Record {
    Header(Header),
    Checkpoint(Checkpoint),
    InodeAlloc(InodeSnapshot),
    DirEntryAdd { entry: DirEntry },
    DataWrite { inode: InodeId, logical_offset: u64, len: u64, checksum: u32 },
    Truncate { inode: InodeId, len: u64 },
    SetTimes { inode: InodeId, created_at: Option<Timestamp>, modified_at: Option<Timestamp> },
    DirEntryRemove { parent: InodeId, name: String, inode: InodeId },
    Rename {
        inode: InodeId,
        old_parent: InodeId,
        new_parent: InodeId,
        old_name: String,
        new_name: String,
    },
}

/// Mathematical view of a [`Record`].
pub enum RecordView {
    Checkpoint(CheckpointView),
    InodeAlloc(InodeView),
    DirEntryAdd { entry: DirEntryView },
    DataWrite { inode: InodeId, logical_offset: u64, len: u64, checksum: u32 },
    Truncate { inode: InodeId, len: u64 },
    SetTimes { inode: InodeId, created_at: Option<Timestamp>, modified_at: Option<Timestamp> },
    DirEntryRemove { parent: InodeId, name: Seq<char>, inode: InodeId },
    Rename {
        inode: InodeId,
        old_parent: InodeId,
        new_parent: InodeId,
        old_name: Seq<char>,
        new_name: Seq<char>,
    },
}

impl View for Record {
    type V = RecordView;

    /// The view of a record, for records that appear in the log.
    /// `Record::Header` is reserved and never framed, so it has no view
    /// of its own; it is mapped to an arbitrary checkpoint view.
    open spec fn view(&self) -> RecordView {
        match self {
            Record::Header(_) => RecordView::Checkpoint(arbitrary()),
            Record::Checkpoint(cp) => RecordView::Checkpoint(cp@),
            Record::InodeAlloc(snap) => RecordView::InodeAlloc(snap@),
            Record::DirEntryAdd { entry } => RecordView::DirEntryAdd { entry: entry@ },
            Record::DataWrite { inode, logical_offset, len, checksum } => RecordView::DataWrite {
                inode: *inode,
                logical_offset: *logical_offset,
                len: *len,
                checksum: *checksum,
            },
            Record::Truncate { inode, len } => RecordView::Truncate { inode: *inode, len: *len },
            Record::SetTimes { inode, created_at, modified_at } => RecordView::SetTimes {
                inode: *inode,
                created_at: *created_at,
                modified_at: *modified_at,
            },
            Record::DirEntryRemove { parent, name, inode } => RecordView::DirEntryRemove {
                parent: *parent,
                name: name@,
                inode: *inode,
            },
            Record::Rename { inode, old_parent, new_parent, old_name, new_name } => {
                RecordView::Rename {
                    inode: *inode,
                    old_parent: *old_parent,
                    new_parent: *new_parent,
                    old_name: old_name@,
                    new_name: new_name@,
                }
            },
        }
    }
}

/// Everything that can go wrong in the library.
///
/// `Io` reports a host-level failure; the verified core never produces
/// it itself, but callers that perform host I/O around the library use
/// it to surface their failures through the same type.
#[derive(Debug)]
pub enum VfsError {
    NotFound(String),
    AlreadyExists(String),
    NotAFile(String),
    NotADir(String),
    InvalidPath(String),
    CorruptLog(String),
    UnsupportedVersion(u32),
    Io(String),
}

} // verus!
