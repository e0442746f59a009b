//! The mount: in-memory namespace state, the write-to-log-then-apply
//! discipline, mount-time replay, and the namespace operations.
//!
//! The central invariant is that replaying the backing store's log always
//! rebuilds exactly the in-memory state. Every mutating operation appends
//! frames to the store and applies the same records to memory, so the
//! invariant is preserved step by step.

use vstd::bytes::spec_u64_to_le_bytes;
use vstd::prelude::*;
use vstd::string::StrSliceExecFns;

use crate::no_sql::{
    encode_record_payload, header_bytes_ok, lemma_parse_data_frame_at, lemma_parse_frame_at, lemma_parse_frame_prefix,
    lemma_parse_rec_bounds, name_encodable, parse_frame, read_header, read_next_record,
    record_encodable, record_framable, snapshot_encodable, spec_data_frame_bytes,
    spec_data_write_view, spec_frame_bytes, spec_header_bytes, spec_header_root, spec_record_body,
    write_data_write_record, write_header, write_record, write_record_post, DecodedRecord,
    ParseStep, HEADER_MAGIC_BYTE, VERSION,
};
use crate::structs::DEFAULT_BLOCK_SIZE;
use crate::listing::{lemma_lex_lt_asym, lex_le, lex_lt, sort_entries};
use crate::structs::{
    Checkpoint, CheckpointView, DirEntry, DirEntryView, Extent, Header, Inode, InodeId,
    InodeSnapshot, InodeView, Metadata, NodeKind, Record, RecordView, Timestamp, VfsError,
};

verus! {

/// The in-memory namespace: the inode table and the child index.
pub struct NsState {
    pub inodes: Map<u64, InodeView>,
    pub children: Map<(u64, Seq<char>), u64>,
}

/// The namespace before any record has been applied.
pub open spec fn ns_empty() -> NsState {
    NsState { inodes: Map::empty(), children: Map::empty() }
}

/// `a + b`, saturating at the largest `u64`.
pub open spec fn sat_add_u64(a: u64, b: u64) -> u64 {
    if a + b > u64::MAX {
        u64::MAX
    } else {
        (a + b) as u64
    }
}

/// Apply `InodeAlloc`: the id must be fresh.
pub open spec fn apply_inode_alloc(st: NsState, s: InodeView) -> Option<NsState> {
    if st.inodes.dom().contains(s.id.0) {
        None
    } else {
        Some(NsState { inodes: st.inodes.insert(s.id.0, s), children: st.children })
    }
}

/// Apply `DirEntryAdd`: the parent must be an existing directory, the
/// child must exist, and the name must be free under the parent.
pub open spec fn apply_dir_entry_add(st: NsState, e: DirEntryView) -> Option<NsState> {
    if !st.inodes.dom().contains(e.parent.0) {
        None
    } else if st.inodes[e.parent.0].kind != NodeKind::Dir {
        None
    } else if !st.inodes.dom().contains(e.inode.0) {
        None
    } else if st.children.dom().contains((e.parent.0, e.name)) {
        None
    } else {
        Some(NsState { inodes: st.inodes, children: st.children.insert((e.parent.0, e.name), e.inode.0) })
    }
}

/// Apply `DataWrite`: the target must be an existing file; an extent is
/// appended and the size raised to cover it. Replay does not touch
/// `modified_at`; online writes persist it with a following `SetTimes`.
pub open spec fn apply_data_write(
    st: NsState,
    inode: u64,
    logical_offset: u64,
    len: u64,
    file_offset: u64,
) -> Option<NsState> {
    if !st.inodes.dom().contains(inode) {
        None
    } else if st.inodes[inode].kind != NodeKind::File {
        None
    } else {
        let node = st.inodes[inode];
        let end = sat_add_u64(logical_offset, len);
        let new_size = if end > node.metadata.size {
            end
        } else {
            node.metadata.size
        };
        Some(
            NsState {
                inodes: st.inodes.insert(
                    inode,
                    InodeView {
                        metadata: Metadata { size: new_size, ..node.metadata },
                        extents: node.extents.push(Extent { logical_offset, file_offset, len }),
                        ..node
                    },
                ),
                children: st.children,
            },
        )
    }
}

/// Apply `Truncate`: the target must be an existing file; its size is
/// set to exactly `len`.
pub open spec fn apply_truncate(st: NsState, inode: u64, len: u64) -> Option<NsState> {
    if !st.inodes.dom().contains(inode) {
        None
    } else if st.inodes[inode].kind != NodeKind::File {
        None
    } else {
        let node = st.inodes[inode];
        Some(
            NsState {
                inodes: st.inodes.insert(
                    inode,
                    InodeView { metadata: Metadata { size: len, ..node.metadata }, ..node },
                ),
                children: st.children,
            },
        )
    }
}

/// Apply `SetTimes`: the target must exist; each provided timestamp is
/// written.
pub open spec fn apply_set_times(
    st: NsState,
    inode: u64,
    created_at: Option<Timestamp>,
    modified_at: Option<Timestamp>,
) -> Option<NsState> {
    if !st.inodes.dom().contains(inode) {
        None
    } else {
        let node = st.inodes[inode];
        let c = match created_at {
            Some(t) => t,
            None => node.metadata.created_at,
        };
        let m = match modified_at {
            Some(t) => t,
            None => node.metadata.modified_at,
        };
        Some(
            NsState {
                inodes: st.inodes.insert(
                    inode,
                    InodeView {
                        metadata: Metadata { created_at: c, modified_at: m, ..node.metadata },
                        ..node
                    },
                ),
                children: st.children,
            },
        )
    }
}

/// Apply `DirEntryRemove`: the parent must be an existing directory and
/// the entry must exist and name the recorded inode. Only the entry
/// leaves the in-memory state; the inode, its metadata and its extents
/// stay in the table (and its bytes in the backing store) until a
/// checkpoint stops mentioning them.
pub open spec fn apply_dir_entry_remove(
    st: NsState,
    parent: u64,
    name: Seq<char>,
    inode: u64,
) -> Option<NsState> {
    if !st.inodes.dom().contains(parent) {
        None
    } else if st.inodes[parent].kind != NodeKind::Dir {
        None
    } else if !st.children.dom().contains((parent, name)) {
        None
    } else if st.children[(parent, name)] != inode {
        None
    } else {
        Some(NsState { inodes: st.inodes, children: st.children.remove((parent, name)) })
    }
}

/// Apply `Rename`: both parents must be existing directories, the old
/// entry must name the recorded inode, and the new slot must be free.
pub open spec fn apply_rename(
    st: NsState,
    inode: u64,
    old_parent: u64,
    new_parent: u64,
    old_name: Seq<char>,
    new_name: Seq<char>,
) -> Option<NsState> {
    if !st.inodes.dom().contains(old_parent) {
        None
    } else if st.inodes[old_parent].kind != NodeKind::Dir {
        None
    } else if !st.inodes.dom().contains(new_parent) {
        None
    } else if st.inodes[new_parent].kind != NodeKind::Dir {
        None
    } else if !st.children.dom().contains((old_parent, old_name)) {
        None
    } else if st.children[(old_parent, old_name)] != inode {
        None
    } else if st.children.dom().contains((new_parent, new_name)) {
        None
    } else if !st.inodes.dom().contains(inode) {
        None
    } else {
        let node = st.inodes[inode];
        Some(
            NsState {
                inodes: st.inodes.insert(
                    inode,
                    InodeView { parent: Some(InodeId(new_parent)), name: new_name, ..node },
                ),
                children: st.children.remove((old_parent, old_name)).insert(
                    (new_parent, new_name),
                    inode,
                ),
            },
        )
    }
}

/// The inode table a checkpoint's snapshot list describes: later entries
/// overwrite earlier ones with the same id.
pub open spec fn cp_inodes_map(ss: Seq<InodeView>) -> Map<u64, InodeView>
    decreases ss.len(),
{
    if ss.len() == 0 {
        Map::empty()
    } else {
        cp_inodes_map(ss.drop_last()).insert(ss.last().id.0, ss.last())
    }
}

/// No two distinct inodes of the table claim the same `(parent, name)`.
pub open spec fn cp_dup_free(m: Map<u64, InodeView>) -> bool {
    forall|i1: u64, i2: u64|
        #![trigger m[i1], m[i2]]
        m.dom().contains(i1) && m.dom().contains(i2) && i1 != i2 && m[i1].parent is Some
            && m[i2].parent is Some ==> !(m[i1].parent == m[i2].parent && m[i1].name == m[i2].name)
}

/// The child index derived from an inode table: one entry per inode with
/// a parent.
pub open spec fn children_of(m: Map<u64, InodeView>) -> Map<(u64, Seq<char>), u64> {
    Map::new(
        |k: (u64, Seq<char>)|
            exists|id: u64|
                #![auto]
                m.dom().contains(id) && m[id].parent == Some(InodeId(k.0)) && m[id].name == k.1,
        |k: (u64, Seq<char>)|
            choose|id: u64|
                #![auto]
                m.dom().contains(id) && m[id].parent == Some(InodeId(k.0)) && m[id].name == k.1,
    )
}

/// Seed the namespace from a checkpoint; duplicate `(parent, name)`
/// pairs are corruption.
pub open spec fn load_checkpoint(cp: CheckpointView) -> Option<NsState> {
    let m = cp_inodes_map(cp.inodes);
    if cp_dup_free(m) {
        Some(NsState { inodes: m, children: children_of(m) })
    } else {
        None
    }
}

/// Apply one replayed record to the namespace; `None` is corruption.
/// A `Checkpoint` record is inert here: the mount scan has already
/// selected the latest one before records are applied.
pub open spec fn apply_record_view(
    st: NsState,
    rec: RecordView,
    data_off: Option<int>,
) -> Option<NsState> {
    match rec {
        RecordView::InodeAlloc(s) => apply_inode_alloc(st, s),
        RecordView::DirEntryAdd { entry } => apply_dir_entry_add(st, entry),
        RecordView::DataWrite { inode, logical_offset, len, .. } => match data_off {
            Some(o) => if 0 <= o <= u64::MAX {
                apply_data_write(st, inode.0, logical_offset, len, o as u64)
            } else {
                None
            },
            None => None,
        },
        RecordView::Truncate { inode, len } => apply_truncate(st, inode.0, len),
        RecordView::SetTimes { inode, created_at, modified_at } => apply_set_times(
            st,
            inode.0,
            created_at,
            modified_at,
        ),
        RecordView::DirEntryRemove { parent, name, inode } => apply_dir_entry_remove(
            st,
            parent.0,
            name,
            inode.0,
        ),
        RecordView::Rename { inode, old_parent, new_parent, old_name, new_name } => apply_rename(
            st,
            inode.0,
            old_parent.0,
            new_parent.0,
            old_name,
            new_name,
        ),
        RecordView::Checkpoint(_) => Some(st),
    }
}

/// A `DataWrite`'s data offset, as the replay model takes it.
pub open spec fn opt_off(o: Option<u64>) -> Option<int> {
    match o {
        Some(v) => Some(v as int),
        None => None,
    }
}

/// Apply a record to an optional state, propagating corruption.
pub open spec fn opt_apply(
    o: Option<NsState>,
    rec: RecordView,
    data_off: Option<int>,
) -> Option<NsState> {
    match o {
        Some(st) => apply_record_view(st, rec, data_off),
        None => None,
    }
}

/// Fold the log's records over the namespace, starting at `off`.
/// `None` is corruption; a truncated tail ends the fold cleanly.
pub open spec fn replay_from(data: Seq<u8>, off: int, st: NsState) -> Option<NsState>
    decreases data.len() - off,
{
    match parse_frame(data, off) {
        ParseStep::End => Some(st),
        ParseStep::Bad => None,
        ParseStep::Rec { rec, data_off, next } => if next <= off {
            None
        } else {
            match apply_record_view(st, rec, data_off) {
                Some(st2) => replay_from(data, next, st2),
                None => None,
            }
        },
    }
}

/// Walk all frames from `off`, remembering the latest checkpoint and the
/// offset just after it. The outer `None` is corruption.
pub open spec fn scan_last_cp(data: Seq<u8>, off: int) -> Option<Option<(CheckpointView, int)>>
    decreases data.len() - off,
{
    match parse_frame(data, off) {
        ParseStep::End => Some(None),
        ParseStep::Bad => None,
        ParseStep::Rec { rec, data_off, next } => if next <= off {
            None
        } else {
            match scan_last_cp(data, next) {
                None => None,
                Some(Some(found)) => Some(Some(found)),
                Some(None) => match rec {
                    RecordView::Checkpoint(cp) => Some(Some((cp, next))),
                    _ => Some(None),
                },
            }
        },
    }
}

/// Every frame from `off` on is complete, and the last one ends exactly
/// at the end of the data: nothing of the log is dark.
pub open spec fn clean_from(data: Seq<u8>, off: int) -> bool
    decreases data.len() - off,
{
    match parse_frame(data, off) {
        ParseStep::End => off == data.len(),
        ParseStep::Bad => false,
        ParseStep::Rec { rec, data_off, next } => next > off && clean_from(data, next),
    }
}

/// The offset at which the readable log ends: the first offset on the
/// frame chain from `off` at which no further complete frame parses.
pub open spec fn chain_end(data: Seq<u8>, off: int) -> int
    decreases data.len() - off,
{
    match parse_frame(data, off) {
        ParseStep::Rec { rec, data_off, next } => if next <= off {
            off
        } else {
            chain_end(data, next)
        },
        _ => off,
    }
}

/// The namespace a mount of these bytes rebuilds: scan for the latest
/// checkpoint, seed from it if there is one, then apply what follows.
/// `None` is corruption. Header validation and the root-inode check are
/// on top of this.
pub open spec fn mount_state(data: Seq<u8>) -> Option<NsState> {
    match scan_last_cp(data, 24) {
        None => None,
        Some(Some((cp, resume))) => match load_checkpoint(cp) {
            Some(st) => replay_from(data, resume, st),
            None => None,
        },
        Some(None) => replay_from(data, 24, ns_empty()),
    }
}

// ---------------------------------------------------------------------
// Appending one complete frame extends the replay by one record.
// ---------------------------------------------------------------------
/// On a clean log, the scan never reports corruption, and the offset it
/// resumes from is itself on the clean chain.
proof fn lemma_clean_scan(data: Seq<u8>, off: int)
    requires
        clean_from(data, off),
        0 <= off,
    ensures
        scan_last_cp(data, off) is Some,
        scan_last_cp(data, off) matches Some(Some((cp, resume))) ==> 0 <= resume && clean_from(
            data,
            resume,
        ),
    decreases data.len() - off,
{
    lemma_parse_rec_bounds(data, off);
    match parse_frame(data, off) {
        ParseStep::End => {},
        ParseStep::Bad => {},
        ParseStep::Rec { rec, data_off, next } => {
            lemma_clean_scan(data, next);
        },
    }
}

/// Appending one frame to a clean log: the log stays clean, the replay
/// gains exactly that record, and the scan's latest checkpoint moves
/// only if the record is a checkpoint.
proof fn lemma_append_frame_chain(data: Seq<u8>, frame: Seq<u8>, off: int)
    requires
        0 <= off,
        clean_from(data, off),
        parse_frame(data + frame, data.len() as int) matches ParseStep::Rec { rec, data_off, next }
            && next == data.len() + frame.len(),
    ensures
        clean_from(data + frame, off),
        parse_frame(data + frame, data.len() as int) matches ParseStep::Rec { rec, data_off, next }
            ==> {
            &&& forall|st: NsState| #[trigger] replay_from(data + frame, off, st) == opt_apply(
                replay_from(data, off, st),
                rec,
                data_off,
            )
            &&& scan_last_cp(data + frame, off) == Some(
                match rec {
                    RecordView::Checkpoint(cp) => Some((cp, data.len() + frame.len() as int)),
                    _ => scan_last_cp(data, off).unwrap(),
                },
            )
        },
    decreases data.len() - off,
{
    let d2 = data + frame;
    let total = data.len() as int + frame.len() as int;
    lemma_clean_scan(data, off);
    lemma_parse_rec_bounds(data, off);
    lemma_parse_rec_bounds(d2, off);
    lemma_parse_rec_bounds(d2, data.len() as int);
    lemma_parse_frame_prefix(data, d2, off);
    let step = parse_frame(d2, data.len() as int);
    let rec = step->Rec_rec;
    let data_off = step->Rec_data_off;
    match parse_frame(data, off) {
        ParseStep::End => {
            // The old log ends here, so this offset is where the new
            // frame sits.
            assert(off == data.len());
            assert(parse_frame(d2, off) == step);
            assert(parse_frame(d2, total) is End);
            assert(clean_from(d2, total));
            assert(clean_from(d2, off));
            assert forall|st: NsState| #[trigger] replay_from(d2, off, st) == opt_apply(
                replay_from(data, off, st),
                rec,
                data_off,
            ) by {
                assert(replay_from(data, off, st) == Some(st));
                match apply_record_view(st, rec, data_off) {
                    Some(st2) => {
                        assert(replay_from(d2, total, st2) == Some(st2));
                        assert(replay_from(d2, off, st) == Some(st2));
                    },
                    None => {
                        assert(replay_from(d2, off, st) is None);
                    },
                }
            }
            assert(scan_last_cp(d2, total) == Some(None::<(CheckpointView, int)>));
            assert(scan_last_cp(data, off) == Some(None::<(CheckpointView, int)>));
            match rec {
                RecordView::Checkpoint(cp) => {
                    assert(scan_last_cp(d2, off) == Some(Some((cp, total))));
                },
                _ => {
                    assert(scan_last_cp(d2, off) == Some(None::<(CheckpointView, int)>));
                },
            }
        },
        ParseStep::Bad => {},
        ParseStep::Rec { rec: r0, data_off: o0, next: n0 } => {
            assert(parse_frame(d2, off) == parse_frame(data, off));
            lemma_append_frame_chain(data, frame, n0);
            assert(clean_from(d2, off));
            assert forall|st: NsState| #[trigger] replay_from(d2, off, st) == opt_apply(
                replay_from(data, off, st),
                rec,
                data_off,
            ) by {
                match apply_record_view(st, r0, o0) {
                    Some(st2) => {
                        assert(replay_from(d2, n0, st2) == opt_apply(
                            replay_from(data, n0, st2),
                            rec,
                            data_off,
                        ));
                        assert(replay_from(d2, off, st) == replay_from(d2, n0, st2));
                        assert(replay_from(data, off, st) == replay_from(data, n0, st2));
                    },
                    None => {
                        assert(replay_from(d2, off, st) is None);
                        assert(replay_from(data, off, st) is None);
                    },
                }
            }
            let x2 = match rec {
                RecordView::Checkpoint(cp) => Some((cp, total)),
                _ => scan_last_cp(data, n0).unwrap(),
            };
            assert(scan_last_cp(d2, n0) == Some(x2));
            match rec {
                RecordView::Checkpoint(_) => {
                    assert(scan_last_cp(d2, off) == Some(x2));
                },
                _ => {
                    match scan_last_cp(data, n0).unwrap() {
                        Some(f) => {
                            assert(scan_last_cp(d2, off) == Some(Some(f)));
                            assert(scan_last_cp(data, off) == Some(Some(f)));
                        },
                        None => {
                            match r0 {
                                RecordView::Checkpoint(cp0) => {
                                    assert(scan_last_cp(d2, off) == Some(Some((cp0, n0))));
                                    assert(scan_last_cp(data, off) == Some(Some((cp0, n0))));
                                },
                                _ => {
                                    assert(scan_last_cp(d2, off) == Some(
                                        None::<(CheckpointView, int)>,
                                    ));
                                    assert(scan_last_cp(data, off) == Some(
                                        None::<(CheckpointView, int)>,
                                    ));
                                },
                            }
                        },
                    }
                },
            }
        },
    }
}

/// Appending one complete frame to a mountable, clean store: mounting
/// the extended store applies exactly the appended record — or, if the
/// record is a checkpoint, restarts from what it captured.
pub proof fn lemma_mount_append(data: Seq<u8>, frame: Seq<u8>)
    requires
        clean_from(data, 24),
        data.len() >= 24,
        parse_frame(data + frame, data.len() as int) matches ParseStep::Rec { rec, data_off, next }
            && next == data.len() + frame.len(),
    ensures
        clean_from(data + frame, 24),
        parse_frame(data + frame, data.len() as int) matches ParseStep::Rec { rec, data_off, next }
            ==> mount_state(data + frame) == (match rec {
            RecordView::Checkpoint(cp) => load_checkpoint(cp),
            _ => opt_apply(mount_state(data), rec, data_off),
        }),
{
    let d2 = data + frame;
    let total = data.len() as int + frame.len() as int;
    lemma_append_frame_chain(data, frame, 24);
    lemma_clean_scan(data, 24);
    lemma_parse_rec_bounds(d2, data.len() as int);
    if let ParseStep::Rec { rec, data_off, next } = parse_frame(d2, data.len() as int) {
        match rec {
            RecordView::Checkpoint(cp) => {
                // The appended checkpoint is now the latest; nothing
                // follows it, so the mount is exactly its contents.
                assert(scan_last_cp(d2, 24) == Some(Some((cp, total))));
                assert(parse_frame(d2, total) is End);
                if load_checkpoint(cp) is Some {
                    assert(replay_from(d2, total, load_checkpoint(cp).unwrap()) == Some(
                        load_checkpoint(cp).unwrap(),
                    ));
                }
            },
            _ => {
                match scan_last_cp(data, 24).unwrap() {
                    Some((cp0, resume0)) => {
                        assert(scan_last_cp(d2, 24) == Some(Some((cp0, resume0))));
                        lemma_clean_scan(data, 24);
                        lemma_append_frame_chain(data, frame, resume0);
                    },
                    None => {
                        assert(scan_last_cp(d2, 24) == Some(None::<(CheckpointView, int)>));
                    },
                }
            },
        }
    }
}

// ---------------------------------------------------------------------
// The executable tables: inode list and child index, each shadowed by
// the map it denotes.
// ---------------------------------------------------------------------
/// One entry of the child index: a name under a parent, naming a child.
pub struct ChildEntry {
    pub parent: InodeId,
    pub name: String,
    pub child: InodeId,
}

/// The in-memory tables of a mount.
pub struct Tables {
    inodes: Vec<Inode>,
    children: Vec<ChildEntry>,
    inodes_m: Ghost<Map<u64, InodeView>>,
    children_m: Ghost<Map<(u64, Seq<char>), u64>>,
}

impl Tables {
    /// The namespace these tables denote.
    pub closed spec fn ns(&self) -> NsState {
        NsState { inodes: self.inodes_m@, children: self.children_m@ }
    }

    /// The inode list and child index agree with their maps, entries are
    /// unique, and every inode is small enough to snapshot.
    pub closed spec fn inv(&self) -> bool {
        &&& forall|i: int|
            #![trigger self.inodes@[i]]
            0 <= i < self.inodes@.len() ==> {
                &&& self.inodes_m@.dom().contains(self.inodes@[i]@.id.0)
                &&& self.inodes_m@[self.inodes@[i]@.id.0] == self.inodes@[i]@
            }
        &&& forall|id: u64|
            #![trigger self.inodes_m@.dom().contains(id)]
            self.inodes_m@.dom().contains(id) ==> exists|i: int|
                0 <= i < self.inodes@.len() && (#[trigger] self.inodes@[i])@.id.0 == id
        &&& forall|i: int, j: int|
            #![trigger self.inodes@[i], self.inodes@[j]]
            0 <= i < j < self.inodes@.len() ==> self.inodes@[i]@.id.0 != self.inodes@[j]@.id.0
        &&& forall|i: int|
            #![trigger self.inodes@[i]]
            0 <= i < self.inodes@.len() ==> snapshot_encodable(self.inodes@[i]@)
        &&& forall|i: int|
            #![trigger self.children@[i]]
            0 <= i < self.children@.len() ==> {
                &&& self.children_m@.dom().contains(
                    (self.children@[i].parent.0, self.children@[i].name@),
                )
                &&& self.children_m@[(self.children@[i].parent.0, self.children@[i].name@)]
                    == self.children@[i].child.0
            }
        &&& forall|k: (u64, Seq<char>)|
            #![trigger self.children_m@.dom().contains(k)]
            self.children_m@.dom().contains(k) ==> exists|i: int|
                0 <= i < self.children@.len() && ((#[trigger] self.children@[i]).parent.0,
                self.children@[i].name@) == k
        &&& forall|i: int, j: int|
            #![trigger self.children@[i], self.children@[j]]
            0 <= i < j < self.children@.len() ==> (self.children@[i].parent.0,
            self.children@[i].name@) != (self.children@[j].parent.0, self.children@[j].name@)
    }

    /// Fresh, empty tables.
    pub fn new() -> (r: Tables)
        ensures
            r.inv(),
            r.ns() == ns_empty(),
    {
        Tables {
            inodes: Vec::new(),
            children: Vec::new(),
            inodes_m: Ghost(Map::empty()),
            children_m: Ghost(Map::empty()),
        }
    }

    /// Find the position of an inode by id.
    fn find_inode(&self, id: InodeId) -> (r: Option<usize>)
        requires
            self.inv(),
        ensures
            match r {
                Some(i) => {
                    &&& i < self.inodes@.len()
                    &&& self.inodes@[i as int]@.id.0 == id.0
                    &&& self.ns().inodes.dom().contains(id.0)
                    &&& self.ns().inodes[id.0] == self.inodes@[i as int]@
                },
                None => !self.ns().inodes.dom().contains(id.0),
            },
    {
        let mut i: usize = 0;
        while i < self.inodes.len()
            invariant
                self.inv(),
                i <= self.inodes@.len(),
                forall|j: int| 0 <= j < i ==> (#[trigger] self.inodes@[j])@.id.0 != id.0,
            decreases self.inodes@.len() - i,
        {
            if self.inodes[i].id.0 == id.0 {
                return Some(i);
            }
            i = i + 1;
        }
        proof {
            if self.inodes_m@.dom().contains(id.0) {
                let w = choose|w: int|
                    0 <= w < self.inodes@.len() && (#[trigger] self.inodes@[w])@.id.0 == id.0;
                assert(false);
            }
        }
        None
    }

    /// Find the position of a child entry by its `(parent, name)` key.
    fn find_child(&self, parent: InodeId, name: &String) -> (r: Option<usize>)
        requires
            self.inv(),
        ensures
            match r {
                Some(i) => {
                    &&& i < self.children@.len()
                    &&& self.children@[i as int].parent.0 == parent.0
                    &&& self.children@[i as int].name@ == name@
                    &&& self.ns().children.dom().contains((parent.0, name@))
                    &&& self.ns().children[(parent.0, name@)] == self.children@[
                        i as int
                    ].child.0
                },
                None => !self.ns().children.dom().contains((parent.0, name@)),
            },
    {
        let mut i: usize = 0;
        while i < self.children.len()
            invariant
                self.inv(),
                i <= self.children@.len(),
                forall|j: int|
                    0 <= j < i ==> ((#[trigger] self.children@[j]).parent.0,
                    self.children@[j].name@) != (parent.0, name@),
            decreases self.children@.len() - i,
        {
            let e = &self.children[i];
            if e.parent.0 == parent.0 && e.name == *name {
                return Some(i);
            }
            i = i + 1;
        }
        proof {
            if self.children_m@.dom().contains((parent.0, name@)) {
                let w = choose|w: int|
                    0 <= w < self.children@.len() && ((#[trigger] self.children@[w]).parent.0,
                    self.children@[w].name@) == (parent.0, name@);
                assert(false);
            }
        }
        None
    }

    /// Look a child inode up by name under a parent.
    pub fn lookup_child(&self, parent: InodeId, name: &String) -> (r: Option<InodeId>)
        requires
            self.inv(),
        ensures
            match r {
                Some(c) => self.ns().children.dom().contains((parent.0, name@)) && c.0
                    == self.ns().children[(parent.0, name@)],
                None => !self.ns().children.dom().contains((parent.0, name@)),
            },
    {
        match self.find_child(parent, name) {
            Some(i) => Some(self.children[i].child),
            None => None,
        }
    }

    /// Insert an inode known to be absent.
    fn insert_inode(&mut self, node: Inode)
        requires
            old(self).inv(),
            !old(self).ns().inodes.dom().contains(node@.id.0),
        ensures
            final(self).inv(),
            final(self).ns() == (NsState {
                inodes: old(self).ns().inodes.insert(node@.id.0, node@),
                children: old(self).ns().children,
            }),
    {
        let ghost nv = node@;
        let _name_bytes = node.name.as_str().as_bytes().len();
        let _extent_count = node.extents.len();
        proof {
            assert(snapshot_encodable(nv));
        }
        self.inodes_m = Ghost(self.inodes_m@.insert(nv.id.0, nv));
        self.inodes.push(node);
        proof {
            assert forall|id: u64|
                #![trigger self.inodes_m@.dom().contains(id)]
                self.inodes_m@.dom().contains(id) implies exists|i: int|
                0 <= i < self.inodes@.len() && (#[trigger] self.inodes@[i])@.id.0 == id by {
                if id == nv.id.0 {
                    assert(self.inodes@[self.inodes@.len() - 1]@.id.0 == id);
                } else {
                    let w = choose|w: int|
                        0 <= w < old(self).inodes@.len() && (#[trigger] old(
                            self,
                        ).inodes@[w])@.id.0 == id;
                    assert(self.inodes@[w]@.id.0 == id);
                }
            }
            assert forall|kk: (u64, Seq<char>)|
                #![trigger self.children_m@.dom().contains(kk)]
                self.children_m@.dom().contains(kk) implies exists|w: int|
                0 <= w < self.children@.len() && ((#[trigger] self.children@[w]).parent.0,
                self.children@[w].name@) == kk by {
                let w = choose|w: int|
                    0 <= w < old(self).children@.len() && ((#[trigger] old(
                        self,
                    ).children@[w]).parent.0, old(self).children@[w].name@) == kk;
                assert(((self.children@[w]).parent.0, self.children@[w].name@) == kk);
            }
        }
    }

    /// Replace the inode at a position by an updated one with the same id.
    fn replace_inode(&mut self, i: usize, node: Inode)
        requires
            old(self).inv(),
            i < old(self).inodes@.len(),
            node@.id.0 == old(self).inodes@[i as int]@.id.0,
        ensures
            final(self).inv(),
            final(self).ns() == (NsState {
                inodes: old(self).ns().inodes.insert(node@.id.0, node@),
                children: old(self).ns().children,
            }),
    {
        let ghost nv = node@;
        let _name_bytes = node.name.as_str().as_bytes().len();
        let _extent_count = node.extents.len();
        proof {
            assert(snapshot_encodable(nv));
        }
        self.inodes_m = Ghost(self.inodes_m@.insert(nv.id.0, nv));
        let _old_entry = self.inodes.swap_remove(i);
        self.inodes.push(node);
        proof {
            let pre = old(self).inodes@;
            let post = self.inodes@;
            assert(post.len() == pre.len());
            assert forall|j: int| #![trigger post[j]] 0 <= j < post.len() implies {
                &&& self.inodes_m@.dom().contains(post[j]@.id.0)
                &&& self.inodes_m@[post[j]@.id.0] == post[j]@
                &&& snapshot_encodable(post[j]@)
            } by {
                if j < post.len() - 1 {
                    if j == i {
                        assert(post[j] == pre[pre.len() - 1]);
                    } else {
                        assert(post[j] == pre[j]);
                    }
                }
            }
            assert forall|id: u64|
                #![trigger self.inodes_m@.dom().contains(id)]
                self.inodes_m@.dom().contains(id) implies exists|j: int|
                0 <= j < post.len() && (#[trigger] post[j])@.id.0 == id by {
                if id == nv.id.0 {
                    assert(post[post.len() - 1]@.id.0 == id);
                } else {
                    let w = choose|w: int|
                        0 <= w < pre.len() && (#[trigger] pre[w])@.id.0 == id;
                    if w == i {
                        assert(false);
                    } else if w == pre.len() - 1 {
                        assert(post[i as int]@.id.0 == id);
                    } else {
                        assert(post[w]@.id.0 == id);
                    }
                }
            }
            assert forall|j: int, k: int|
                #![trigger post[j], post[k]]
                0 <= j < k < post.len() implies post[j]@.id.0 != post[k]@.id.0 by {
                let pj = if k == post.len() - 1 {
                    if j == i {
                        pre.len() - 1
                    } else {
                        j
                    }
                } else {
                    j
                };
                if j == i && j < post.len() - 1 {
                    assert(post[j] == pre[pre.len() - 1]);
                }
            }
            assert forall|kk: (u64, Seq<char>)|
                #![trigger self.children_m@.dom().contains(kk)]
                self.children_m@.dom().contains(kk) implies exists|w: int|
                0 <= w < self.children@.len() && ((#[trigger] self.children@[w]).parent.0,
                self.children@[w].name@) == kk by {
                let w = choose|w: int|
                    0 <= w < old(self).children@.len() && ((#[trigger] old(
                        self,
                    ).children@[w]).parent.0, old(self).children@[w].name@) == kk;
                assert(((self.children@[w]).parent.0, self.children@[w].name@) == kk);
            }
        }
    }

    /// Insert a child entry known to be absent.
    fn insert_child(&mut self, entry: ChildEntry)
        requires
            old(self).inv(),
            !old(self).ns().children.dom().contains((entry.parent.0, entry.name@)),
        ensures
            final(self).inv(),
            final(self).inodes@ == old(self).inodes@,
            final(self).ns() == (NsState {
                inodes: old(self).ns().inodes,
                children: old(self).ns().children.insert(
                    (entry.parent.0, entry.name@),
                    entry.child.0,
                ),
            }),
    {
        let ghost k = (entry.parent.0, entry.name@);
        let ghost c = entry.child.0;
        self.children_m = Ghost(self.children_m@.insert(k, c));
        self.children.push(entry);
        proof {
            assert forall|kk: (u64, Seq<char>)|
                #![trigger self.children_m@.dom().contains(kk)]
                self.children_m@.dom().contains(kk) implies exists|i: int|
                0 <= i < self.children@.len() && ((#[trigger] self.children@[i]).parent.0,
                self.children@[i].name@) == kk by {
                if kk == k {
                    assert(((self.children@[self.children@.len() - 1]).parent.0,
                    self.children@[self.children@.len() - 1].name@) == kk);
                } else {
                    let w = choose|w: int|
                        0 <= w < old(self).children@.len() && ((#[trigger] old(
                            self,
                        ).children@[w]).parent.0, old(self).children@[w].name@) == kk;
                    assert(((self.children@[w]).parent.0, self.children@[w].name@) == kk);
                }
            }
            assert forall|id: u64|
                #![trigger self.inodes_m@.dom().contains(id)]
                self.inodes_m@.dom().contains(id) implies exists|w: int|
                0 <= w < self.inodes@.len() && (#[trigger] self.inodes@[w])@.id.0 == id by {
                let w = choose|w: int|
                    0 <= w < old(self).inodes@.len() && (#[trigger] old(self).inodes@[w])@.id.0
                        == id;
                assert(self.inodes@[w]@.id.0 == id);
            }
        }
    }

    /// Remove the child entry at a position.
    fn remove_child_at(&mut self, i: usize)
        requires
            old(self).inv(),
            i < old(self).children@.len(),
        ensures
            final(self).inv(),
            final(self).inodes@ == old(self).inodes@,
            final(self).ns() == (NsState {
                inodes: old(self).ns().inodes,
                children: old(self).ns().children.remove(
                    (old(self).children@[i as int].parent.0, old(self).children@[i as int].name@),
                ),
            }),
    {
        let ghost removed = (self.children@[i as int].parent.0, self.children@[i as int].name@);
        self.children_m = Ghost(self.children_m@.remove(removed));
        let _old_entry = self.children.swap_remove(i);
        proof {
            let pre = old(self).children@;
            let post = self.children@;
            assert forall|j: int| #![trigger post[j]] 0 <= j < post.len() implies {
                &&& self.children_m@.dom().contains((post[j].parent.0, post[j].name@))
                &&& self.children_m@[(post[j].parent.0, post[j].name@)] == post[j].child.0
            } by {
                if j == i && (i as int) < post.len() {
                    assert(post[j] == pre[pre.len() - 1]);
                    assert((post[j].parent.0, post[j].name@) != removed);
                } else {
                    assert(post[j] == pre[j]);
                    assert((post[j].parent.0, post[j].name@) != removed);
                }
            }
            assert forall|kk: (u64, Seq<char>)|
                #![trigger self.children_m@.dom().contains(kk)]
                self.children_m@.dom().contains(kk) implies exists|j: int|
                0 <= j < post.len() && ((#[trigger] post[j]).parent.0, post[j].name@) == kk by {
                let w = choose|w: int|
                    0 <= w < pre.len() && ((#[trigger] pre[w]).parent.0, pre[w].name@) == kk;
                if w == i {
                    assert(false);
                } else if w == pre.len() - 1 {
                    assert(((post[i as int]).parent.0, post[i as int].name@) == kk);
                } else {
                    assert(((post[w]).parent.0, post[w].name@) == kk);
                }
            }
            assert forall|id: u64|
                #![trigger self.inodes_m@.dom().contains(id)]
                self.inodes_m@.dom().contains(id) implies exists|w: int|
                0 <= w < self.inodes@.len() && (#[trigger] self.inodes@[w])@.id.0 == id by {
                let w = choose|w: int|
                    0 <= w < old(self).inodes@.len() && (#[trigger] old(self).inodes@[w])@.id.0
                        == id;
                assert(self.inodes@[w]@.id.0 == id);
            }
        }
    }

    /// Apply `InodeAlloc` to the tables, as replay would.
    pub fn apply_inode_alloc(&mut self, snap: &InodeSnapshot) -> (r: Result<(), VfsError>)
        requires
            old(self).inv(),
        ensures
            final(self).inv(),
            match apply_inode_alloc(old(self).ns(), snap@) {
                Some(st) => r is Ok && final(self).ns() == st,
                None => r matches Err(e) && e is CorruptLog && final(self).ns() == old(self).ns()
                    && *final(self) == *old(self),
            },
    {
        if self.find_inode(snap.id).is_some() {
            return Err(VfsError::CorruptLog("duplicate inode alloc".to_owned()));
        }
        let node = Inode {
            id: snap.id,
            parent: snap.parent,
            name: snap.name.clone(),
            kind: snap.kind,
            metadata: snap.metadata,
            extents: copy_extents(&snap.extents),
        };
        self.insert_inode(node);
        Ok(())
    }

    /// Apply `DirEntryAdd` to the tables, as replay would.
    pub fn apply_dir_entry_add(&mut self, entry: &DirEntry) -> (r: Result<(), VfsError>)
        requires
            old(self).inv(),
        ensures
            final(self).inv(),
            match apply_dir_entry_add(old(self).ns(), entry@) {
                Some(st) => r is Ok && final(self).ns() == st,
                None => r matches Err(e) && e is CorruptLog && final(self).ns() == old(self).ns()
                    && *final(self) == *old(self),
            },
    {
        let parent_ix = match self.find_inode(entry.parent) {
            Some(i) => i,
            None => {
                return Err(VfsError::CorruptLog("direntry add parent missing".to_owned()));
            },
        };
        match self.inodes[parent_ix].kind {
            NodeKind::Dir => {},
            NodeKind::File => {
                return Err(VfsError::CorruptLog("direntry add parent is not a dir".to_owned()));
            },
        }
        if self.find_inode(entry.inode).is_none() {
            return Err(VfsError::CorruptLog("direntry add inode missing".to_owned()));
        }
        if self.find_child(entry.parent, &entry.name).is_some() {
            return Err(VfsError::CorruptLog("direntry add duplicate name".to_owned()));
        }
        self.insert_child(
            ChildEntry { parent: entry.parent, name: entry.name.clone(), child: entry.inode },
        );
        Ok(())
    }

    /// Apply `DataWrite` to the tables, as replay would: record the
    /// extent and raise the size.
    pub fn apply_data_write(
        &mut self,
        inode: InodeId,
        logical_offset: u64,
        len: u64,
        file_offset: u64,
    ) -> (r: Result<(), VfsError>)
        requires
            old(self).inv(),
        ensures
            final(self).inv(),
            match apply_data_write(old(self).ns(), inode.0, logical_offset, len, file_offset) {
                Some(st) => r is Ok && final(self).ns() == st,
                None => r matches Err(e) && e is CorruptLog && final(self).ns() == old(self).ns()
                    && *final(self) == *old(self),
            },
    {
        let ix = match self.find_inode(inode) {
            Some(i) => i,
            None => {
                return Err(VfsError::CorruptLog("data write inode missing".to_owned()));
            },
        };
        match self.inodes[ix].kind {
            NodeKind::File => {},
            NodeKind::Dir => {
                return Err(VfsError::CorruptLog("data write target not a file".to_owned()));
            },
        }
        let mut node = self.copy_inode_at(ix);
        node.extents.push(Extent { logical_offset, file_offset, len });
        let end = match logical_offset.checked_add(len) {
            Some(e) => e,
            None => u64::MAX,
        };
        if end > node.metadata.size {
            node.metadata.size = end;
        }
        self.replace_inode(ix, node);
        Ok(())
    }

    /// Apply `Truncate` to the tables, as replay would.
    pub fn apply_truncate(&mut self, inode: InodeId, len: u64) -> (r: Result<(), VfsError>)
        requires
            old(self).inv(),
        ensures
            final(self).inv(),
            match apply_truncate(old(self).ns(), inode.0, len) {
                Some(st) => r is Ok && final(self).ns() == st,
                None => r matches Err(e) && e is CorruptLog && final(self).ns() == old(self).ns()
                    && *final(self) == *old(self),
            },
    {
        let ix = match self.find_inode(inode) {
            Some(i) => i,
            None => {
                return Err(VfsError::CorruptLog("truncate inode missing".to_owned()));
            },
        };
        match self.inodes[ix].kind {
            NodeKind::File => {},
            NodeKind::Dir => {
                return Err(VfsError::CorruptLog("truncate target not a file".to_owned()));
            },
        }
        let mut node = self.copy_inode_at(ix);
        node.metadata.size = len;
        self.replace_inode(ix, node);
        Ok(())
    }

    /// Apply `SetTimes` to the tables, as replay would.
    pub fn apply_set_times(
        &mut self,
        inode: InodeId,
        created_at: &Option<Timestamp>,
        modified_at: &Option<Timestamp>,
    ) -> (r: Result<(), VfsError>)
        requires
            old(self).inv(),
        ensures
            final(self).inv(),
            match apply_set_times(old(self).ns(), inode.0, *created_at, *modified_at) {
                Some(st) => r is Ok && final(self).ns() == st,
                None => r matches Err(e) && e is CorruptLog && final(self).ns() == old(self).ns()
                    && *final(self) == *old(self),
            },
    {
        let ix = match self.find_inode(inode) {
            Some(i) => i,
            None => {
                return Err(VfsError::CorruptLog("set_times inode missing".to_owned()));
            },
        };
        let mut node = self.copy_inode_at(ix);
        if let Some(c) = created_at {
            node.metadata.created_at = *c;
        }
        if let Some(m) = modified_at {
            node.metadata.modified_at = *m;
        }
        self.replace_inode(ix, node);
        Ok(())
    }

    /// Apply `DirEntryRemove` to the tables, as replay would: the entry
    /// and its inode leave the in-memory state.
    pub fn apply_dir_entry_remove(
        &mut self,
        parent: InodeId,
        name: &String,
        inode: InodeId,
    ) -> (r: Result<(), VfsError>)
        requires
            old(self).inv(),
        ensures
            final(self).inv(),
            match apply_dir_entry_remove(old(self).ns(), parent.0, name@, inode.0) {
                Some(st) => r is Ok && final(self).ns() == st,
                None => r matches Err(e) && e is CorruptLog && final(self).ns() == old(self).ns()
                    && *final(self) == *old(self),
            },
    {
        let parent_ix = match self.find_inode(parent) {
            Some(i) => i,
            None => {
                return Err(VfsError::CorruptLog("direntry remove parent missing".to_owned()));
            },
        };
        match self.inodes[parent_ix].kind {
            NodeKind::Dir => {},
            NodeKind::File => {
                return Err(VfsError::CorruptLog("direntry remove parent not dir".to_owned()));
            },
        }
        let child_ix = match self.find_child(parent, name) {
            Some(i) => i,
            None => {
                return Err(VfsError::CorruptLog("direntry remove missing entry".to_owned()));
            },
        };
        if self.children[child_ix].child.0 != inode.0 {
            return Err(VfsError::CorruptLog("direntry remove inode mismatch".to_owned()));
        }
        self.remove_child_at(child_ix);
        Ok(())
    }

    /// Apply `Rename` to the tables, as replay would.
    pub fn apply_rename(
        &mut self,
        inode: InodeId,
        old_parent: InodeId,
        new_parent: InodeId,
        old_name: &String,
        new_name: &String,
    ) -> (r: Result<(), VfsError>)
        requires
            old(self).inv(),
        ensures
            final(self).inv(),
            match apply_rename(old(self).ns(), inode.0, old_parent.0, new_parent.0, old_name@, new_name@) {
                Some(st) => r is Ok && final(self).ns() == st,
                None => r matches Err(e) && e is CorruptLog && final(self).ns() == old(self).ns()
                    && *final(self) == *old(self),
            },
    {
        let op_ix = match self.find_inode(old_parent) {
            Some(i) => i,
            None => {
                return Err(VfsError::CorruptLog("rename old_parent missing".to_owned()));
            },
        };
        match self.inodes[op_ix].kind {
            NodeKind::Dir => {},
            NodeKind::File => {
                return Err(VfsError::CorruptLog("rename old_parent not dir".to_owned()));
            },
        }
        let np_ix = match self.find_inode(new_parent) {
            Some(i) => i,
            None => {
                return Err(VfsError::CorruptLog("rename new_parent missing".to_owned()));
            },
        };
        match self.inodes[np_ix].kind {
            NodeKind::Dir => {},
            NodeKind::File => {
                return Err(VfsError::CorruptLog("rename new_parent not dir".to_owned()));
            },
        }
        let old_ix = match self.find_child(old_parent, old_name) {
            Some(i) => i,
            None => {
                return Err(VfsError::CorruptLog("rename old entry missing".to_owned()));
            },
        };
        if self.children[old_ix].child.0 != inode.0 {
            return Err(VfsError::CorruptLog("rename old entry inode mismatch".to_owned()));
        }
        if self.find_child(new_parent, new_name).is_some() {
            return Err(VfsError::CorruptLog("rename destination exists".to_owned()));
        }
        let node_ix = match self.find_inode(inode) {
            Some(i) => i,
            None => {
                return Err(VfsError::CorruptLog("rename inode missing".to_owned()));
            },
        };
        self.remove_child_at(old_ix);
        let node_ix2 = match self.find_inode(inode) {
            Some(i) => i,
            None => {
                proof {
                    assert(false);
                }
                return Err(VfsError::CorruptLog("rename inode missing".to_owned()));
            },
        };
        let mut node = self.copy_inode_at(node_ix2);
        node.parent = Some(new_parent);
        node.name = copy_string(new_name);
        self.replace_inode(node_ix2, node);
        if self.find_child(new_parent, new_name).is_some() {
            proof {
                assert(false);
            }
            return Err(VfsError::CorruptLog("rename destination exists".to_owned()));
        }
        self.insert_child(
            ChildEntry { parent: new_parent, name: copy_string(new_name), child: inode },
        );
        Ok(())
    }

    /// Apply a decoded record exactly as replay semantics dictate.
    pub fn apply_decoded(&mut self, d: &DecodedRecord) -> (r: Result<(), VfsError>)
        requires
            old(self).inv(),
        ensures
            final(self).inv(),
            match apply_record_view(old(self).ns(), d.record@, opt_off(d.data_payload_offset)) {
                Some(st) => r is Ok && final(self).ns() == st,
                None => r matches Err(e) && e is CorruptLog && final(self).ns() == old(self).ns(),
            },
    {
        match &d.record {
            Record::DataWrite { inode, logical_offset, len, .. } => {
                match d.data_payload_offset {
                    Some(data_off) => self.apply_data_write(*inode, *logical_offset, *len, data_off),
                    None => Err(VfsError::CorruptLog("DataWrite missing data offset".to_owned())),
                }
            },
            _ => self.apply_record(&d.record),
        }
    }

    /// Apply a record that carries no embedded data. The reserved
    /// `Header` and the inert `Checkpoint` change nothing.
    pub fn apply_record(&mut self, rec: &Record) -> (r: Result<(), VfsError>)
        requires
            old(self).inv(),
            !(rec is DataWrite),
        ensures
            final(self).inv(),
            match apply_record_view(old(self).ns(), rec@, None) {
                Some(st) => r is Ok && final(self).ns() == st,
                None => r matches Err(e) && e is CorruptLog && final(self).ns() == old(self).ns(),
            },
    {
        match rec {
            Record::InodeAlloc(snap) => self.apply_inode_alloc(snap),
            Record::DirEntryAdd { entry } => self.apply_dir_entry_add(entry),
            Record::Truncate { inode, len } => self.apply_truncate(*inode, *len),
            Record::SetTimes { inode, created_at, modified_at } => self.apply_set_times(
                *inode,
                created_at,
                modified_at,
            ),
            Record::DirEntryRemove { parent, name, inode } => self.apply_dir_entry_remove(
                *parent,
                name,
                *inode,
            ),
            Record::Rename { inode, old_parent, new_parent, old_name, new_name } => self
                .apply_rename(*inode, *old_parent, *new_parent, old_name, new_name),
            Record::Checkpoint(_) => Ok(()),
            Record::Header(_) => Ok(()),
            Record::DataWrite { .. } => Ok(()),
        }
    }

    /// A fresh copy of the inode at a position.
    fn copy_inode_at(&self, ix: usize) -> (r: Inode)
        requires
            ix < self.inodes@.len(),
        ensures
            r@ == self.inodes@[ix as int]@,
    {
        let cur = &self.inodes[ix];
        Inode {
            id: cur.id,
            parent: cur.parent,
            name: copy_string(&cur.name),
            kind: cur.kind,
            metadata: cur.metadata,
            extents: copy_extents(&cur.extents),
        }
    }
}

/// Build an in-memory inode from a persisted snapshot.
fn inode_from_snapshot(snap: &InodeSnapshot) -> (r: Inode)
    ensures
        r@ == snap@,
{
    Inode {
        id: snap.id,
        parent: snap.parent,
        name: copy_string(&snap.name),
        kind: snap.kind,
        metadata: snap.metadata,
        extents: copy_extents(&snap.extents),
    }
}

/// Seed fresh tables from a checkpoint: rebuild the inode table (later
/// snapshots of an id win) and derive the child index, rejecting
/// duplicate `(parent, name)` pairs as corruption.
fn load_from_checkpoint(cp: &Checkpoint) -> (r: Result<Tables, VfsError>)
    ensures
        match load_checkpoint(cp@) {
            Some(st) => r matches Ok(t) && t.inv() && t.ns() == st,
            None => r matches Err(e) && e is CorruptLog,
        },
{
    let ghost snaps = cp@.inodes;
    let ghost m = cp_inodes_map(snaps);
    let mut t = Tables::new();
    let mut i: usize = 0;
    while i < cp.inodes.len()
        invariant
            snaps == cp@.inodes,
            i <= cp.inodes@.len(),
            t.inv(),
            t.ns().inodes == cp_inodes_map(snaps.take(i as int)),
            t.ns().children == Map::<(u64, Seq<char>), u64>::empty(),
        decreases cp.inodes@.len() - i,
    {
        let snap = &cp.inodes[i];
        let node = inode_from_snapshot(snap);
        proof {
            assert(snaps.take(i + 1).drop_last() =~= snaps.take(i as int));
            assert(snaps.take(i + 1).last() == snaps[i as int]);
        }
        match t.find_inode(snap.id) {
            Some(ix) => {
                t.replace_inode(ix, node);
            },
            None => {
                t.insert_inode(node);
            },
        }
        i = i + 1;
    }
    proof {
        assert(snaps.take(snaps.len() as int) =~= snaps);
        assert(t.ns().inodes == m);
    }
    // Derive the child index from the inode table.
    let ghost inodes_seq = t.inodes@;
    let mut j: usize = 0;
    while j < t.inodes.len()
        invariant
            t.inv(),
            t.inodes@ == inodes_seq,
            m == cp_inodes_map(cp@.inodes),
            t.ns().inodes == m,
            j <= inodes_seq.len(),
            forall|w: int|
                #![trigger inodes_seq[w]]
                0 <= w < j && inodes_seq[w]@.parent is Some ==> {
                    &&& t.ns().children.dom().contains(
                        (inodes_seq[w]@.parent.unwrap().0, inodes_seq[w]@.name),
                    )
                    &&& t.ns().children[(inodes_seq[w]@.parent.unwrap().0, inodes_seq[w]@.name)]
                        == inodes_seq[w]@.id.0
                },
            forall|k: (u64, Seq<char>)|
                #![trigger t.ns().children.dom().contains(k)]
                t.ns().children.dom().contains(k) ==> exists|w: int|
                    0 <= w < j && (#[trigger] inodes_seq[w])@.parent == Some(InodeId(k.0))
                        && inodes_seq[w]@.name == k.1 && t.ns().children[k]
                        == inodes_seq[w]@.id.0,
        decreases inodes_seq.len() - j,
    {
        let parent_opt = t.inodes[j].parent;
        if let Some(p) = parent_opt {
            let nm = copy_string(&t.inodes[j].name);
            let child = t.inodes[j].id;
            if t.find_child(p, &nm).is_some() {
                proof {
                    // Two distinct inodes of the table share a
                    // `(parent, name)` pair, so the checkpoint is
                    // corrupt.
                    let k = (p.0, nm@);
                    let w = choose|w: int|
                        0 <= w < j && (#[trigger] inodes_seq[w])@.parent == Some(InodeId(k.0))
                            && inodes_seq[w]@.name == k.1 && t.ns().children[k]
                            == inodes_seq[w]@.id.0;
                    assert(inodes_seq[w]@.id.0 != inodes_seq[j as int]@.id.0);
                    assert(m.dom().contains(inodes_seq[w]@.id.0));
                    assert(m.dom().contains(inodes_seq[j as int]@.id.0));
                    assert(m[inodes_seq[w]@.id.0] == inodes_seq[w]@);
                    assert(m[inodes_seq[j as int]@.id.0] == inodes_seq[j as int]@);
                    assert(!cp_dup_free(m));
                }
                return Err(
                    VfsError::CorruptLog("checkpoint has duplicate (parent,name)".to_owned()),
                );
            }
            t.insert_child(ChildEntry { parent: p, name: nm, child });
        }
        j = j + 1;
    }
    proof {
        // Nothing was rejected, so the table is duplicate-free and the
        // derived index is exactly `children_of`.
        assert forall|i1: u64, i2: u64|
            #![trigger m[i1], m[i2]]
            m.dom().contains(i1) && m.dom().contains(i2) && i1 != i2 && m[i1].parent is Some
                && m[i2].parent is Some implies !(m[i1].parent == m[i2].parent && m[i1].name
                == m[i2].name) by {
            if m[i1].parent == m[i2].parent && m[i1].name == m[i2].name {
                let w1 = choose|w: int|
                    0 <= w < inodes_seq.len() && (#[trigger] inodes_seq[w])@.id.0 == i1;
                let w2 = choose|w: int|
                    0 <= w < inodes_seq.len() && (#[trigger] inodes_seq[w])@.id.0 == i2;
                let k = (m[i1].parent.unwrap().0, m[i1].name);
                assert(t.ns().children[k] == i1);
                assert(t.ns().children[k] == i2);
            }
        }
        assert(cp_dup_free(m));
        assert forall|k: (u64, Seq<char>)| #![auto] true implies t.ns().children.dom().contains(k)
            == children_of(m).dom().contains(k) && (t.ns().children.dom().contains(k)
            ==> t.ns().children[k] == children_of(m)[k]) by {
            if t.ns().children.dom().contains(k) {
                let w = choose|w: int|
                    0 <= w < inodes_seq.len() && (#[trigger] inodes_seq[w])@.parent == Some(
                        InodeId(k.0),
                    ) && inodes_seq[w]@.name == k.1 && t.ns().children[k] == inodes_seq[w]@.id.0;
                assert(m.dom().contains(inodes_seq[w]@.id.0) && m[inodes_seq[w]@.id.0]
                    == inodes_seq[w]@);
                assert(children_of(m).dom().contains(k));
                let id2 = choose|id: u64|
                    #![auto]
                    m.dom().contains(id) && m[id].parent == Some(InodeId(k.0)) && m[id].name
                        == k.1;
                if id2 != inodes_seq[w]@.id.0 {
                    assert(false);
                }
            }
            if children_of(m).dom().contains(k) {
                let id = choose|id: u64|
                    #![auto]
                    m.dom().contains(id) && m[id].parent == Some(InodeId(k.0)) && m[id].name
                        == k.1;
                let w = choose|w: int|
                    0 <= w < inodes_seq.len() && (#[trigger] inodes_seq[w])@.id.0 == id;
                assert(t.ns().children.dom().contains(k));
            }
        }
        assert(t.ns().children =~= children_of(m));
    }
    Ok(t)
}

/// A fresh copy of an extent list.
fn copy_extents(v: &Vec<Extent>) -> (r: Vec<Extent>)
    ensures
        r@ == v@,
{
    let mut out: Vec<Extent> = Vec::new();
    let mut i: usize = 0;
    while i < v.len()
        invariant
            i <= v@.len(),
            out@ == v@.take(i as int),
        decreases v@.len() - i,
    {
        out.push(v[i]);
        proof {
            assert(v@.take(i + 1) =~= v@.take(i as int).push(v@[i as int]));
        }
        i = i + 1;
    }
    proof {
        assert(v@.take(v@.len() as int) =~= v@);
    }
    out
}

/// A fresh copy of a string.
pub(crate) fn copy_string(s: &String) -> (r: String)
    ensures
        r@ == s@,
{
    s.clone()
}

// ---------------------------------------------------------------------
// Mount: scan, seed, replay, and the truncation of the dark tail.
// ---------------------------------------------------------------------
/// `b` lies on the frame chain that starts at `a`.
pub open spec fn on_chain(data: Seq<u8>, a: int, b: int) -> bool
    decreases data.len() - a,
{
    if a == b {
        true
    } else {
        match parse_frame(data, a) {
            ParseStep::Rec { rec, data_off, next } => next > a && on_chain(data, next, b),
            _ => false,
        }
    }
}

/// Chain offsets compose: one more frame extends the chain.
proof fn lemma_chain_step(data: Seq<u8>, a: int, b: int)
    requires
        on_chain(data, a, b),
        parse_frame(data, b) matches ParseStep::Rec { rec, data_off, next } && next > b,
    ensures
        parse_frame(data, b) matches ParseStep::Rec { rec, data_off, next } ==> on_chain(
            data,
            a,
            next,
        ),
    decreases data.len() - a,
{
    lemma_parse_rec_bounds(data, a);
    if a == b {
        if let ParseStep::Rec { rec, data_off, next } = parse_frame(data, b) {
            assert(on_chain(data, next, next));
        }
    } else {
        if let ParseStep::Rec { rec, data_off, next } = parse_frame(data, a) {
            lemma_chain_step(data, next, b);
        }
    }
}

/// Cutting the data right where the frame chain ends changes nothing
/// that a mount sees: every complete frame is still there, and the cut
/// point itself reads as a clean end.
proof fn lemma_truncate_chain(data: Seq<u8>, m: int, off: int)
    requires
        0 <= off,
        on_chain(data, off, m),
        m <= data.len(),
        parse_frame(data, m) is End,
    ensures
        clean_from(data.take(m), off),
        forall|st: NsState| #[trigger] replay_from(data.take(m), off, st) == replay_from(
            data,
            off,
            st,
        ),
        scan_last_cp(data.take(m), off) == scan_last_cp(data, off),
        scan_last_cp(data, off) matches Some(Some((cp, res))) ==> on_chain(data, res, m),
    decreases data.len() - off,
{
    let d1 = data.take(m);
    lemma_parse_rec_bounds(data, off);
    lemma_parse_rec_bounds(d1, off);
    lemma_parse_frame_prefix(d1, data, off);
    if off == m {
        assert(parse_frame(d1, off) is End);
        assert(clean_from(d1, off));
        assert forall|st: NsState| #[trigger] replay_from(d1, off, st) == replay_from(
            data,
            off,
            st,
        ) by {
            assert(replay_from(d1, off, st) == Some(st));
            assert(replay_from(data, off, st) == Some(st));
        }
        assert(scan_last_cp(d1, off) == Some(None::<(CheckpointView, int)>));
        assert(scan_last_cp(data, off) == Some(None::<(CheckpointView, int)>));
    } else {
        if let ParseStep::Rec { rec, data_off, next } = parse_frame(data, off) {
            // The frame is complete and lies before the cut.
            assert(on_chain(data, next, m));
            lemma_chain_le(data, next, m);
            assert(parse_frame(d1, off) == parse_frame(data, off));
            lemma_truncate_chain(data, m, next);
            assert(clean_from(d1, off));
            assert forall|st: NsState| #[trigger] replay_from(d1, off, st) == replay_from(
                data,
                off,
                st,
            ) by {
                match apply_record_view(st, rec, data_off) {
                    Some(st2) => {
                        assert(replay_from(d1, next, st2) == replay_from(data, next, st2));
                        assert(replay_from(d1, off, st) == replay_from(d1, next, st2));
                        assert(replay_from(data, off, st) == replay_from(data, next, st2));
                    },
                    None => {
                        assert(replay_from(d1, off, st) is None);
                        assert(replay_from(data, off, st) is None);
                    },
                }
            }
            assert(scan_last_cp(d1, next) == scan_last_cp(data, next));
            match rec {
                RecordView::Checkpoint(_) => {},
                _ => {},
            }
        }
    }
}

/// Chain offsets never pass the end the chain reaches.
proof fn lemma_chain_le(data: Seq<u8>, a: int, b: int)
    requires
        on_chain(data, a, b),
    ensures
        a <= b,
    decreases data.len() - a,
{
    lemma_parse_rec_bounds(data, a);
    if a != b {
        if let ParseStep::Rec { rec, data_off, next } = parse_frame(data, a) {
            lemma_chain_le(data, next, b);
        }
    }
}

/// Truncating at the end of the chain preserves what a mount computes.
proof fn lemma_truncate_mount(data: Seq<u8>, m: int)
    requires
        24 <= m <= data.len(),
        on_chain(data, 24, m),
        parse_frame(data, m) is End,
    ensures
        clean_from(data.take(m), 24),
        mount_state(data.take(m)) == mount_state(data),
    decreases 0int,
{
    lemma_truncate_chain(data, m, 24);
    match scan_last_cp(data, 24) {
        Some(Some((cp, res))) => {
            lemma_chain_le(data, 24, m);
            assert(on_chain(data, res, m));
            lemma_scan_res_nonneg(data, 24);
            lemma_truncate_chain(data, m, res);
        },
        _ => {},
    }
}

/// Resume offsets the scan reports are never negative.
proof fn lemma_scan_res_nonneg(data: Seq<u8>, off: int)
    requires
        0 <= off,
    ensures
        scan_last_cp(data, off) matches Some(Some((cp, res))) ==> 0 <= res,
    decreases data.len() - off,
{
    lemma_parse_rec_bounds(data, off);
    match parse_frame(data, off) {
        ParseStep::Rec { rec, data_off, next } => {
            if next > off {
                lemma_scan_res_nonneg(data, next);
            }
        },
        _ => {},
    }
}

/// Rebuild the in-memory tables by replaying the store's log, honouring
/// the latest checkpoint. Also returns the offset at which the readable
/// log ends (the truncated tail starts there).
fn mount_replay(store: &Vec<u8>) -> (r: Result<(Tables, u64), VfsError>)
    requires
        store@.len() >= 24,
    ensures
        match mount_state(store@) {
            Some(st) => r matches Ok((t, end)) && t.inv() && t.ns() == st && 24 <= end
                <= store@.len() && on_chain(store@, 24, end as int) && end as int == chain_end(
                store@,
                24,
            ) && parse_frame(store@, end as int) is End,
            None => r matches Err(e) && e is CorruptLog,
        },
{
    let mut offset: u64 = 24;
    let mut last_cp: Option<(Checkpoint, u64)> = None;
    let ghost data = store@;
    loop
        invariant
            data == store@,
            24 <= offset <= store@.len(),
            on_chain(data, 24, offset as int),
            chain_end(data, 24) == chain_end(data, offset as int),
            match scan_last_cp(data, offset as int) {
                None => scan_last_cp(data, 24) is None,
                Some(Some(f)) => scan_last_cp(data, 24) == Some(Some(f)),
                Some(None) => scan_last_cp(data, 24) == Some(
                    match last_cp {
                        Some((cp, res)) => Some((cp@, res as int)),
                        None => None::<(CheckpointView, int)>,
                    },
                ),
            },
            match last_cp {
                Some((cp, res)) => 24 <= res <= store@.len() && on_chain(data, 24, res as int),
                None => true,
            },
        ensures
            data == store@,
            24 <= offset <= store@.len(),
            on_chain(data, 24, offset as int),
            offset == chain_end(data, 24),
            parse_frame(data, offset as int) is End,
            scan_last_cp(data, 24) == Some(
                match last_cp {
                    Some((cp, res)) => Some((cp@, res as int)),
                    None => None::<(CheckpointView, int)>,
                },
            ),
            match last_cp {
                Some((cp, res)) => 24 <= res <= store@.len() && on_chain(data, 24, res as int),
                None => true,
            },
        decreases store@.len() - offset,
    {
        let step = match read_next_record(store, offset) {
            Ok(s) => s,
            Err(_) => {
                return Err(VfsError::CorruptLog("bad record in log".to_owned()));
            },
        };
        match step {
            None => {
                break;
            },
            Some((decoded, next)) => {
                proof {
                    lemma_parse_rec_bounds(data, offset as int);
                    lemma_chain_step(data, 24, offset as int);
                }
                if let Record::Checkpoint(cp) = decoded.record {
                    last_cp = Some((cp, next));
                } else {
                }
                offset = next;
            },
        }
    }
    let log_end = offset;
    // Seed from the checkpoint if one was found, then replay the tail.
    let ghost target = mount_state(data);
    let mut tables: Tables;
    match last_cp {
        Some((cp, resume)) => {
            tables = match load_from_checkpoint(&cp) {
                Ok(t) => t,
                Err(e) => {
                    return Err(e);
                },
            };
            offset = resume;
        },
        None => {
            tables = Tables::new();
            offset = 24;
        },
    }
    proof {
        assert(target == replay_from(data, offset as int, tables.ns()));
    }
    loop
        invariant
            data == store@,
            tables.inv(),
            0 <= offset,
            target == mount_state(data),
            target == replay_from(data, offset as int, tables.ns()),
        ensures
            data == store@,
            tables.inv(),
            target == mount_state(data),
            target == replay_from(data, offset as int, tables.ns()),
            parse_frame(data, offset as int) is End,
        decreases store@.len() - offset,
    {
        let step = match read_next_record(store, offset) {
            Ok(s) => s,
            Err(_) => {
                return Err(VfsError::CorruptLog("bad record in log".to_owned()));
            },
        };
        match step {
            None => {
                break;
            },
            Some((decoded, next)) => {
                proof {
                    lemma_parse_rec_bounds(data, offset as int);
                }
                match tables.apply_decoded(&decoded) {
                    Ok(()) => {},
                    Err(e) => {
                        return Err(e);
                    },
                }
                offset = next;
            },
        }
    }
    Ok((tables, log_end))
}

// ---------------------------------------------------------------------
// The mount itself.
// ---------------------------------------------------------------------
/// The next inode id after replay: one past the largest live id.
fn recalc_next_inode(t: &Tables) -> (r: Result<InodeId, VfsError>)
    requires
        t.inv(),
    ensures
        match r {
            Ok(n) => is_next_of(t.ns().inodes, n.0),
            Err(e) => e is CorruptLog && t.ns().inodes.dom().contains(u64::MAX),
        },
{
    let mut max_id: u64 = 0;
    let mut i: usize = 0;
    while i < t.inodes.len()
        invariant
            t.inv(),
            i <= t.inodes@.len(),
            forall|j: int| 0 <= j < i ==> (#[trigger] t.inodes@[j])@.id.0 <= max_id,
            max_id == 0 || exists|j: int|
                0 <= j < i && (#[trigger] t.inodes@[j])@.id.0 == max_id,
        decreases t.inodes@.len() - i,
    {
        if t.inodes[i].id.0 > max_id {
            max_id = t.inodes[i].id.0;
        }
        i = i + 1;
    }
    if max_id == u64::MAX {
        proof {
            let j = choose|j: int|
                0 <= j < t.inodes@.len() && (#[trigger] t.inodes@[j])@.id.0 == max_id;
            assert(t.ns().inodes.dom().contains(u64::MAX));
        }
        return Err(VfsError::CorruptLog("inode id space exhausted".to_owned()));
    }
    proof {
        assert forall|id: u64| #[trigger] t.ns().inodes.dom().contains(id) implies id < max_id
            + 1 by {
            let j = choose|j: int|
                0 <= j < t.inodes@.len() && (#[trigger] t.inodes@[j])@.id.0 == id;
        }
        if max_id >= 1 {
            let j = choose|j: int|
                0 <= j < t.inodes@.len() && (#[trigger] t.inodes@[j])@.id.0 == max_id;
            assert(t.ns().inodes.dom().contains(max_id));
        }
    }
    Ok(InodeId(max_id + 1))
}

/// `n` is exactly one past the largest id of the table (1 when the
/// table is empty).
pub open spec fn is_next_of(m: Map<u64, InodeView>, n: u64) -> bool {
    &&& n >= 1
    &&& forall|id: u64| #[trigger] m.dom().contains(id) ==> id < n
    &&& n > 1 ==> m.dom().contains((n - 1) as u64)
}

/// The namespace right after initialising an empty store at time `t`:
/// only the root directory, with no children.
pub open spec fn fresh_ns(t: Timestamp) -> NsState {
    NsState {
        inodes: Map::empty().insert(
            1u64,
            new_node_view(None, Seq::<char>::empty(), NodeKind::Dir, 1, t),
        ),
        children: Map::empty(),
    }
}

/// What `Vfs::mount` guarantees, as a function of the given bytes.
pub open spec fn mount_post(data: Seq<u8>, r: Result<Vfs, VfsError>) -> bool {
    if data.len() == 0 {
        &&& r matches Ok(v)
        &&& v.wf()
        &&& v.root_id() == 1
        &&& v.next_id() == 2
        &&& exists|t: Timestamp|
            {
                &&& v.ns() == #[trigger] fresh_ns(t)
                &&& v.store_bytes() == spec_header_bytes(DEFAULT_BLOCK_SIZE, InodeId(1))
                    + spec_frame_bytes(
                    RecordView::InodeAlloc(
                        new_node_view(None, Seq::<char>::empty(), NodeKind::Dir, 1, t),
                    ),
                )
            }
    } else if !header_bytes_ok(data) {
        r matches Err(e) && (e is CorruptLog || e matches VfsError::UnsupportedVersion(_))
    } else {
        match mount_state(data) {
            None => r matches Err(e) && e is CorruptLog,
            Some(st) => {
                if !st.inodes.dom().contains(spec_header_root(data).0) {
                    r matches Err(e) && e is CorruptLog
                } else if st.inodes.dom().contains(u64::MAX) {
                    r matches Err(e) && e is CorruptLog
                } else {
                    &&& r matches Ok(v)
                    &&& v.wf()
                    &&& v.ns() == st
                    &&& v.root_id() == spec_header_root(data).0
                    &&& is_next_of(st.inodes, v.next_id())
                    &&& v.store_bytes() == data.take(chain_end(data, 24))
                }
            },
        }
    }
}

/// A mounted virtual file system over an in-memory backing store.
///
/// The store holds a 24-byte header followed by the append-only record
/// log; the tables are always exactly what replaying that log rebuilds.
pub struct Vfs {
    store: Vec<u8>,
    header: Header,
    next_inode: InodeId,
    tables: Tables,
}

impl Vfs {
    /// The in-memory namespace.
    pub closed spec fn ns(&self) -> NsState {
        self.tables.ns()
    }

    /// The backing store's bytes.
    pub closed spec fn store_bytes(&self) -> Seq<u8> {
        self.store@
    }

    /// The root directory's inode id.
    pub closed spec fn root_id(&self) -> u64 {
        self.header.root.0
    }

    /// The id the next allocation will use.
    pub closed spec fn next_id(&self) -> u64 {
        self.next_inode.0
    }

    /// The mount's governing invariant: the tables are consistent, the
    /// store begins with a valid header, every byte of the log is a
    /// complete frame, and — centrally — replaying the store rebuilds
    /// exactly the in-memory namespace, whose root exists and whose ids
    /// all lie below the allocator's next id.
    pub closed spec fn wf(&self) -> bool {
        &&& self.tables.inv()
        &&& self.store@.len() >= 24
        &&& self.store@.len() <= u64::MAX
        &&& header_bytes_ok(self.store@)
        &&& spec_header_root(self.store@) == self.header.root
        &&& clean_from(self.store@, 24)
        &&& mount_state(self.store@) == Some(self.ns())
        &&& self.ns().inodes.dom().contains(self.root_id())
        &&& forall|id: u64| #[trigger] self.ns().inodes.dom().contains(id) ==> id
            < self.next_inode.0
    }

    /// Mount a backing store: initialise it if empty, otherwise
    /// validate the header and replay the log (from the latest
    /// checkpoint if one exists). Bytes after the last complete,
    /// CRC-valid frame are a truncated tail and are dropped.
    #[verifier::rlimit(100)]
    pub fn mount(store: Vec<u8>) -> (r: Result<Vfs, VfsError>)
        ensures
            mount_post(store@, r),
    {
        let mut store = store;
        if store.len() == 0 {
            return Self::init_empty(store);
        }
        let header = match read_header(&store) {
            Ok(h) => h,
            Err(e) => {
                return Err(e);
            },
        };
        let (tables, log_end) = match mount_replay(&store) {
            Ok(x) => x,
            Err(e) => {
                return Err(e);
            },
        };
        let ghost full = store@;
        let store_len = store.len();
        store.truncate(log_end as usize);
        proof {
            lemma_truncate_mount(full, log_end as int);
            assert(store@ == full.take(log_end as int));
            assert(store@.subrange(0, 8) =~= full.subrange(0, 8));
            assert(store@.subrange(8, 12) =~= full.subrange(8, 12));
            assert(store@.subrange(12, 16) =~= full.subrange(12, 16));
            assert(store@.subrange(16, 24) =~= full.subrange(16, 24));
        }
        if tables.find_inode(header.root).is_none() {
            return Err(VfsError::CorruptLog("missing root inode after replay".to_owned()));
        }
        let next_inode = match recalc_next_inode(&tables) {
            Ok(n) => n,
            Err(e) => {
                return Err(e);
            },
        };
        let v = Vfs { store, header, next_inode, tables };
        Ok(v)
    }

    /// Initialise an empty store: write the header and the root
    /// directory's allocation record, and apply it.
    fn init_empty(store: Vec<u8>) -> (r: Result<Vfs, VfsError>)
        requires
            store@.len() == 0,
        ensures
            mount_post(store@, r),
    {
        let mut store = store;
        let root = InodeId(1);
        match write_header(&mut store, DEFAULT_BLOCK_SIZE, root) {
            Ok(()) => {},
            Err(_) => {
                proof {
                    assert(false);
                }
                return Err(VfsError::CorruptLog("header write failed".to_owned()));
            },
        }
        let now = Timestamp::now();
        let root_snap = InodeSnapshot {
            id: root,
            parent: None,
            name: String::new(),
            kind: NodeKind::Dir,
            metadata: Metadata { size: 0, created_at: now, modified_at: now },
            extents: Vec::new(),
        };
        let rec = Record::InodeAlloc(root_snap);
        let ghost hdr = store@;
        proof {
            lemma_fresh_record_encodable(rec@, now);
            vstd::bytes::lemma_auto_spec_u64_to_from_le_bytes();
            vstd::bytes::lemma_auto_spec_u32_to_from_le_bytes();
            assert(spec_frame_bytes(rec@).len() == 83);
        }
        let off = match write_record(&mut store, &rec) {
            Ok(o) => o,
            Err(_) => {
                proof {
                    assert(false);
                }
                return Err(VfsError::CorruptLog("root record write failed".to_owned()));
            },
        };
        let mut tables = Tables::new();
        match tables.apply_record(&rec) {
            Ok(()) => {},
            Err(_) => {
                proof {
                    assert(false);
                }
                return Err(VfsError::CorruptLog("root record apply failed".to_owned()));
            },
        }
        let _store_len = store.len();
        let header = Header {
            magic: [
                HEADER_MAGIC_BYTE,
                HEADER_MAGIC_BYTE,
                HEADER_MAGIC_BYTE,
                HEADER_MAGIC_BYTE,
                HEADER_MAGIC_BYTE,
                HEADER_MAGIC_BYTE,
                HEADER_MAGIC_BYTE,
                HEADER_MAGIC_BYTE,
            ],
            version: VERSION,
            block_size: DEFAULT_BLOCK_SIZE,
            root,
        };
        let v = Vfs { store, header, next_inode: InodeId(2), tables };
        proof {
            let data = v.store@;
            let frame = spec_frame_bytes(rec@);
            vstd::bytes::lemma_auto_spec_u64_to_from_le_bytes();
            vstd::bytes::lemma_auto_spec_u32_to_from_le_bytes();
            assert(data == hdr + frame);
            assert(hdr.len() == 24);
            assert(data.subrange(0, 8) =~= crate::no_sql::spec_header_magic());
            assert(data.subrange(8, 12) =~= vstd::bytes::spec_u32_to_le_bytes(VERSION));
            assert(data.subrange(16, 24) =~= vstd::bytes::spec_u64_to_le_bytes(1u64));
            assert(header_bytes_ok(data));
            assert(spec_header_root(data) == InodeId(1));
            assert(data.subrange(24, 24 + frame.len() as int) =~= frame);
            lemma_parse_frame_at(data, 24, rec@);
            assert(parse_frame(data, data.len() as int) is End);
            assert(clean_from(data, data.len() as int));
            assert(clean_from(data, 24));
            assert(scan_last_cp(data, data.len() as int) == Some(
                None::<(CheckpointView, int)>,
            ));
            assert(scan_last_cp(data, 24) == Some(None::<(CheckpointView, int)>));
            assert(replay_from(data, data.len() as int, v.ns()) == Some(v.ns()));
            assert(apply_record_view(ns_empty(), rec@, None) == Some(v.ns()));
            assert(replay_from(data, 24, ns_empty()) == Some(v.ns()));
            assert(mount_state(data) == Some(v.ns()));
            assert(v.ns() == fresh_ns(now));
            assert(v.wf());
        }
        Ok(v)
    }
}

/// The freshly-initialised root allocation record is small and simple
/// enough to frame.
proof fn lemma_fresh_record_encodable(rv: RecordView, t: Timestamp)
    requires
        rv matches RecordView::InodeAlloc(s) && s == (InodeView {
            id: InodeId(1),
            parent: None,
            name: Seq::<char>::empty(),
            kind: NodeKind::Dir,
            metadata: Metadata { size: 0, created_at: t, modified_at: t },
            extents: Seq::<Extent>::empty(),
        }),
    ensures
        record_encodable(rv),
        spec_record_body(rv).len() == 66,
{
    vstd::bytes::lemma_auto_spec_u64_to_from_le_bytes();
    vstd::bytes::lemma_auto_spec_u128_to_from_le_bytes();
    if let RecordView::InodeAlloc(s) = rv {
        assert(vstd::utf8::encode_utf8(s.name) =~= Seq::<u8>::empty());
        assert(crate::no_sql::spec_extent_items_bytes(s.extents) =~= Seq::<u8>::empty());
        assert(crate::no_sql::spec_string_bytes(s.name).len() == 8);
        assert(crate::no_sql::spec_extent_list_bytes(s.extents).len() == 8);
        assert(crate::no_sql::spec_i128_to_le_bytes(t.0).len() == 16);
        assert(crate::no_sql::spec_opt_id_bytes(s.parent).len() == 1);
        assert(spec_record_body(rv).len() == 66);
    }
}

// ---------------------------------------------------------------------
// Paths: `/`-separated segments, none empty, no `.` or `..`.
// ---------------------------------------------------------------------
/// Split a path at every `/`. The result always has at least one
/// element; empty segments stand for stray separators.
pub open spec fn spec_split(path: Seq<char>) -> Seq<Seq<char>>
    decreases path.len(),
{
    if path.len() == 0 {
        seq![Seq::<char>::empty()]
    } else {
        let rest = spec_split(path.drop_first());
        if path[0] == '/' {
            seq![Seq::<char>::empty()] + rest
        } else {
            seq![seq![path[0]] + rest[0]] + rest.drop_first()
        }
    }
}

proof fn lemma_split_nonempty(path: Seq<char>)
    ensures
        spec_split(path).len() >= 1,
    decreases path.len(),
{
    if path.len() > 0 {
        lemma_split_nonempty(path.drop_first());
    }
}

/// A usable path segment: non-empty and not a dot name.
pub open spec fn valid_segment(seg: Seq<char>) -> bool {
    seg.len() > 0 && seg != seq!['.'] && seg != seq!['.', '.']
}

/// A usable path: non-empty, every segment usable.
pub open spec fn valid_path(path: Seq<char>) -> bool {
    path.len() > 0 && forall|i: int|
        0 <= i < spec_split(path).len() ==> valid_segment(#[trigger] spec_split(path)[i])
}

/// The views of a segment list.
pub open spec fn seg_views(v: Seq<String>) -> Seq<Seq<char>> {
    v.map_values(|s: String| s@)
}

/// Split a path into its segments, rejecting empty, `.` and `..` ones.
pub fn split_path(path: &str) -> (r: Result<Vec<String>, VfsError>)
    ensures
        match r {
            Ok(v) => valid_path(path@) && seg_views(v@) == spec_split(path@) && v@.len() >= 1,
            Err(e) => e is InvalidPath && !valid_path(path@),
        },
{
    let n = path.unicode_len();
    if n == 0 {
        return Err(VfsError::InvalidPath("empty path".to_owned()));
    }
    let ghost p = path@;
    let mut segs: Vec<String> = Vec::new();
    let mut seg_start: usize = 0;
    let mut i: usize = 0;
    proof {
        lemma_split_nonempty(p);
        assert(p.subrange(0, n as int) =~= p);
    }
    while i < n
        invariant
            n == p.len(),
            p == path@,
            seg_start <= i <= n,
            spec_split(p) =~= seg_views(segs@) + seq![
                p.subrange(seg_start as int, i as int) + spec_split(
                    p.subrange(i as int, n as int),
                )[0],
            ] + spec_split(p.subrange(i as int, n as int)).drop_first(),
            forall|j: int| 0 <= j < segs@.len() ==> valid_segment(#[trigger] seg_views(segs@)[j]),
            forall|j: int|
                seg_start <= j < i ==> p[j] != '/',
        decreases n - i,
    {
        let ghost rem = p.subrange(i as int, n as int);
        let ghost rem2 = p.subrange(i + 1, n as int);
        proof {
            lemma_split_nonempty(rem2);
            assert(rem.len() > 0);
            assert(rem[0] == p[i as int]);
            assert(rem.drop_first() =~= rem2);
        }
        let c = path.get_char(i);
        if c == '/' {
            let seg_ok = check_segment(path, seg_start, i);
            if !seg_ok {
                proof {
                    assert(spec_split(p)[seg_views(segs@).len() as int] == p.subrange(
                        seg_start as int,
                        i as int,
                    ) + spec_split(rem)[0]);
                    assert(spec_split(rem)[0] =~= Seq::<char>::empty());
                    assert(p.subrange(seg_start as int, i as int) + Seq::<char>::empty()
                        =~= p.subrange(seg_start as int, i as int));
                }
                return Err(VfsError::InvalidPath("invalid path".to_owned()));
            }
            let seg = path.substring_char(seg_start, i).to_owned();
            proof {
                assert(spec_split(rem)[0] =~= Seq::<char>::empty());
                assert(seg@ + Seq::<char>::empty() =~= seg@);
                assert(seg_views(segs@.push(seg)) =~= seg_views(segs@) + seq![seg@]);
                let s2 = spec_split(rem2);
                assert(spec_split(rem) =~= seq![Seq::<char>::empty()] + s2);
                assert(spec_split(rem).drop_first() =~= s2);
                assert(s2 =~= seq![s2[0]] + s2.drop_first());
                assert(p.subrange(i + 1, i + 1) =~= Seq::<char>::empty());
                assert(Seq::<char>::empty() + s2[0] =~= s2[0]);
            }
            segs.push(seg);
            seg_start = i + 1;
        } else {
            proof {
                let s2 = spec_split(rem2);
                assert(spec_split(rem) =~= seq![seq![rem[0]] + s2[0]] + s2.drop_first());
                assert(spec_split(rem)[0] == seq![rem[0]] + s2[0]);
                assert(p.subrange(seg_start as int, i as int) + (seq![p[i as int]] + s2[0])
                    =~= p.subrange(seg_start as int, i + 1) + s2[0]);
            }
        }
        i = i + 1;
    }
    let seg_ok = check_segment(path, seg_start, n);
    proof {
        let rem = p.subrange(n as int, n as int);
        assert(rem =~= Seq::<char>::empty());
        assert(spec_split(rem) =~= seq![Seq::<char>::empty()]);
        assert(p.subrange(seg_start as int, n as int) + Seq::<char>::empty() =~= p.subrange(
            seg_start as int,
            n as int,
        ));
        assert(spec_split(rem).drop_first() =~= Seq::<Seq<char>>::empty());
        assert(spec_split(p) =~= seg_views(segs@) + seq![
            p.subrange(seg_start as int, n as int),
        ]);
    }
    if !seg_ok {
        proof {
            assert(spec_split(p)[seg_views(segs@).len() as int] == p.subrange(
                seg_start as int,
                n as int,
            ));
            assert(!valid_path(p));
        }
        return Err(VfsError::InvalidPath("invalid path".to_owned()));
    }
    let seg = path.substring_char(seg_start, n).to_owned();
    proof {
        assert(seg_views(segs@.push(seg)) =~= seg_views(segs@) + seq![seg@]);
    }
    segs.push(seg);
    Ok(segs)
}

/// Whether the characters `[from, to)` of the path form a usable segment.
fn check_segment(path: &str, from: usize, to: usize) -> (r: bool)
    requires
        from <= to <= path@.len(),
    ensures
        r == valid_segment(path@.subrange(from as int, to as int)),
{
    let ghost seg = path@.subrange(from as int, to as int);
    if to - from == 0 {
        return false;
    }
    if to - from == 1 {
        let c = path.get_char(from);
        proof {
            assert(seg.len() == 1 && seg[0] == c);
            if c == '.' {
                assert(seg =~= seq!['.']);
            }
            if c != '.' {
                assert(seg != seq!['.']);
                assert(seg != seq!['.', '.']);
            }
        }
        return c != '.';
    }
    if to - from == 2 {
        let c0 = path.get_char(from);
        let c1 = path.get_char(from + 1);
        proof {
            assert(seg.len() == 2 && seg[0] == c0 && seg[1] == c1);
            if c0 == '.' && c1 == '.' {
                assert(seg =~= seq!['.', '.']);
            }
            if !(c0 == '.' && c1 == '.') {
                assert(seg != seq!['.', '.']);
            }
            assert(seg != seq!['.']);
        }
        return !(c0 == '.' && c1 == '.');
    }
    proof {
        assert(seg.len() > 2);
        assert(seg != seq!['.'] && seg != seq!['.', '.']);
    }
    true
}

// ---------------------------------------------------------------------
// Resolution: walk the child index from a directory along segments.
// ---------------------------------------------------------------------
/// Follow the segments from `cur` through the child index.
pub open spec fn resolve_from(ns: NsState, cur: u64, segs: Seq<Seq<char>>) -> Option<u64>
    decreases segs.len(),
{
    if segs.len() == 0 {
        Some(cur)
    } else if ns.children.dom().contains((cur, segs[0])) {
        resolve_from(ns, ns.children[(cur, segs[0])], segs.drop_first())
    } else {
        None
    }
}

/// What a whole path resolves to, if it is usable at all.
pub open spec fn spec_resolve(ns: NsState, root: u64, path: Seq<char>) -> Option<u64> {
    if valid_path(path) {
        resolve_from(ns, root, spec_split(path))
    } else {
        None
    }
}

// ---------------------------------------------------------------------
// Committing records: write to the log, then apply to memory.
// ---------------------------------------------------------------------
/// Byte cost that is always enough to log one namespace operation
/// naming this segment (its records plus framing).
pub open spec fn op_need(leaf: Seq<char>) -> int {
    400 + 2 * crate::no_sql::spec_string_bytes(leaf).len() as int
}

impl Vfs {
    /// Append one framed record to the log and apply it to the tables.
    /// The caller has established that the record fits, applies cleanly,
    /// keeps every id below the allocator and keeps the root alive.
    fn commit_record(&mut self, record: &Record)
        requires
            old(self).wf(),
            record_framable(*record),
            !(record@ is Checkpoint),
            record_encodable(record@),
            apply_record_view(old(self).ns(), record@, None) is Some,
            old(self).store_bytes().len() + spec_frame_bytes(record@).len() <= u64::MAX,
            forall|id: u64|
                #[trigger] apply_record_view(
                    old(self).ns(),
                    record@,
                    None,
                ).unwrap().inodes.dom().contains(id) ==> id < old(self).next_id(),
            apply_record_view(old(self).ns(), record@, None).unwrap().inodes.dom().contains(
                old(self).root_id(),
            ),
        ensures
            final(self).wf(),
            final(self).ns() == apply_record_view(old(self).ns(), record@, None).unwrap(),
            final(self).store_bytes() == old(self).store_bytes() + spec_frame_bytes(record@),
            final(self).root_id() == old(self).root_id(),
            final(self).next_id() == old(self).next_id(),
    {
        let ghost pre = self.store@;
        let ghost frame = spec_frame_bytes(record@);
        let _off = match write_record(&mut self.store, record) {
            Ok(o) => o,
            Err(_) => {
                proof {
                    assert(false);
                }
                return ;
            },
        };
        proof {
            assert(self.store@ == pre + frame);
            assert(self.store@.subrange(pre.len() as int, pre.len() + frame.len() as int)
                =~= frame);
            lemma_parse_frame_at(self.store@, pre.len() as int, record@);
            lemma_mount_append(pre, frame);
            assert(self.store@.subrange(0, 8) =~= pre.subrange(0, 8));
            assert(self.store@.subrange(8, 12) =~= pre.subrange(8, 12));
            assert(self.store@.subrange(16, 24) =~= pre.subrange(16, 24));
        }
        match self.tables.apply_record(record) {
            Ok(()) => {},
            Err(_) => {
                proof {
                    assert(false);
                }
                return ;
            },
        }
    }

    /// Append a `DataWrite` frame carrying `data` and record its extent.
    /// Returns the data CRC and the extent's `file_offset`.
    fn commit_data_write(&mut self, inode: InodeId, logical_offset: u64, data: &[u8]) -> (r: (
        u32,
        u64,
    ))
        requires
            old(self).wf(),
            old(self).store_bytes().len() + 45 + data@.len() <= u64::MAX,
            apply_data_write(
                old(self).ns(),
                inode.0,
                logical_offset,
                data@.len() as u64,
                (old(self).store_bytes().len() + 45) as u64,
            ) is Some,
        ensures
            final(self).wf(),
            final(self).ns() == apply_data_write(
                old(self).ns(),
                inode.0,
                logical_offset,
                data@.len() as u64,
                (old(self).store_bytes().len() + 45) as u64,
            ).unwrap(),
            r.0 == crate::no_sql::crc32_of(data@),
            r.1 == old(self).store_bytes().len() + 45,
            final(self).store_bytes() == old(self).store_bytes() + spec_data_frame_bytes(
                inode,
                logical_offset,
                data@,
            ),
            final(self).store_bytes().len() == old(self).store_bytes().len() + 45 + data@.len(),
            final(self).root_id() == old(self).root_id(),
            final(self).next_id() == old(self).next_id(),
    {
        let ghost pre = self.store@;
        let ghost frame = spec_data_frame_bytes(inode, logical_offset, data@);
        let (crc, foff) = match write_data_write_record(&mut self.store, inode, logical_offset, data) {
            Ok(x) => x,
            Err(_) => {
                proof {
                    assert(false);
                }
                return (0, 0);
            },
        };
        proof {
            assert(self.store@ == pre + frame);
            assert(self.store@.subrange(pre.len() as int, pre.len() + frame.len() as int)
                =~= frame);
            lemma_parse_data_frame_at(self.store@, pre.len() as int, inode, logical_offset, data@);
            lemma_mount_append(pre, frame);
            assert(self.store@.subrange(0, 8) =~= pre.subrange(0, 8));
            assert(self.store@.subrange(8, 12) =~= pre.subrange(8, 12));
            assert(self.store@.subrange(16, 24) =~= pre.subrange(16, 24));
        }
        match self.tables.apply_data_write(inode, logical_offset, data.len() as u64, foff) {
            Ok(()) => {},
            Err(_) => {
                proof {
                    assert(false);
                }
                return (0, 0);
            },
        }
        (crc, foff)
    }

    /// Resolve the first `upto` segments starting from the root.
    fn resolve_upto(&self, segs: &Vec<String>, upto: usize) -> (r: Option<InodeId>)
        requires
            self.wf(),
            upto <= segs@.len(),
        ensures
            match r {
                Some(id) => resolve_from(self.ns(), self.root_id(), seg_views(segs@).take(upto as int))
                    == Some(id.0),
                None => resolve_from(self.ns(), self.root_id(), seg_views(segs@).take(upto as int))
                    is None,
            },
    {
        let mut cur = self.header.root;
        let mut i: usize = 0;
        proof {
            assert(seg_views(segs@).take(upto as int).skip(0) =~= seg_views(segs@).take(
                upto as int,
            ));
        }
        while i < upto
            invariant
                self.wf(),
                upto <= segs@.len(),
                i <= upto,
                resolve_from(self.ns(), self.root_id(), seg_views(segs@).take(upto as int))
                    == resolve_from(
                    self.ns(),
                    cur.0,
                    seg_views(segs@).take(upto as int).skip(i as int),
                ),
            decreases upto - i,
        {
            let ghost rest = seg_views(segs@).take(upto as int).skip(i as int);
            proof {
                assert(rest.len() > 0);
                assert(rest[0] == segs@[i as int]@);
                assert(rest.drop_first() =~= seg_views(segs@).take(upto as int).skip(i + 1));
            }
            match self.tables.lookup_child(cur, &segs[i]) {
                Some(child) => {
                    cur = child;
                },
                None => {
                    return None;
                },
            }
            i = i + 1;
        }
        proof {
            assert(seg_views(segs@).take(upto as int).skip(upto as int)
                =~= Seq::<Seq<char>>::empty());
        }
        Some(cur)
    }
}

// ---------------------------------------------------------------------
// Creating nodes.
// ---------------------------------------------------------------------
/// Everything `create_dir` / `create` need of the pre-state to succeed:
/// a usable path whose parent resolves to a live directory with the
/// leaf name still free.
pub open spec fn create_ready(ns: NsState, root: u64, path: Seq<char>) -> bool {
    &&& valid_path(path)
    &&& resolve_from(ns, root, spec_split(path).drop_last()) matches Some(p)
    &&& ns.inodes.dom().contains(resolve_from(ns, root, spec_split(path).drop_last()).unwrap())
    &&& ns.inodes[resolve_from(ns, root, spec_split(path).drop_last()).unwrap()].kind
        == NodeKind::Dir
    &&& !ns.children.dom().contains(
        (resolve_from(ns, root, spec_split(path).drop_last()).unwrap(), spec_split(path).last()),
    )
}

/// The parent directory a creation resolves to.
pub open spec fn create_parent(ns: NsState, root: u64, path: Seq<char>) -> u64 {
    resolve_from(ns, root, spec_split(path).drop_last()).unwrap()
}

/// The inode a creation allocates.
pub open spec fn new_node_view(
    parent: Option<InodeId>,
    leaf: Seq<char>,
    kind: NodeKind,
    id: u64,
    t: Timestamp,
) -> InodeView {
    InodeView {
        id: InodeId(id),
        parent,
        name: leaf,
        kind,
        metadata: Metadata { size: 0, created_at: t, modified_at: t },
        extents: Seq::empty(),
    }
}

/// The three records a creation logs, as one byte run.
pub open spec fn create_frames(
    parent: u64,
    leaf: Seq<char>,
    kind: NodeKind,
    id: u64,
    t: Timestamp,
) -> Seq<u8> {
    spec_frame_bytes(
        RecordView::InodeAlloc(new_node_view(Some(InodeId(parent)), leaf, kind, id, t)),
    ) + spec_frame_bytes(
        RecordView::DirEntryAdd {
            entry: DirEntryView { parent: InodeId(parent), inode: InodeId(id), name: leaf, kind },
        },
    ) + spec_frame_bytes(
        RecordView::SetTimes { inode: InodeId(id), created_at: Some(t), modified_at: Some(t) },
    )
}

/// The state after creating a node: a fresh inode under the parent and
/// a child entry for it, both stamped with the creation time.
pub open spec fn create_effect(
    ns: NsState,
    parent: u64,
    leaf: Seq<char>,
    kind: NodeKind,
    id: u64,
    t: Timestamp,
) -> NsState {
    NsState {
        inodes: ns.inodes.insert(id, new_node_view(Some(InodeId(parent)), leaf, kind, id, t)),
        children: ns.children.insert((parent, leaf), id),
    }
}

/// The contract shared by `create_dir` and `create`: errors are exact
/// and leave the state unchanged; success allocates the next id and
/// applies `create_effect` at some creation time.
pub open spec fn create_post(
    pre: Vfs,
    path: Seq<char>,
    kind: NodeKind,
    post: Vfs,
    r: Result<InodeId, VfsError>,
) -> bool {
    &&& post.wf()
    &&& post.root_id() == pre.root_id()
    &&& match r {
        Ok(id) => {
            &&& create_ready(pre.ns(), pre.root_id(), path)
            &&& pre.next_id() < u64::MAX
            &&& id.0 == pre.next_id()
            &&& post.next_id() == pre.next_id() + 1
            &&& exists|t: Timestamp|
                {
                    &&& post.ns() == #[trigger] create_effect(
                        pre.ns(),
                        create_parent(pre.ns(), pre.root_id(), path),
                        spec_split(path).last(),
                        kind,
                        pre.next_id(),
                        t,
                    )
                    &&& post.store_bytes() == pre.store_bytes() + create_frames(
                        create_parent(pre.ns(), pre.root_id(), path),
                        spec_split(path).last(),
                        kind,
                        pre.next_id(),
                        t,
                    )
                }
        },
        Err(e) => {
            &&& post.ns() == pre.ns()
            &&& post.next_id() == pre.next_id()
            &&& post.store_bytes() == pre.store_bytes()
            &&& match e {
                VfsError::InvalidPath(_) => !valid_path(path),
                VfsError::NotFound(_) => valid_path(path) && resolve_from(
                    pre.ns(),
                    pre.root_id(),
                    spec_split(path).drop_last(),
                ) is None,
                VfsError::CorruptLog(_) => {
                    let p = resolve_from(pre.ns(), pre.root_id(), spec_split(path).drop_last());
                    &&& valid_path(path)
                    &&& p is Some
                    &&& !pre.ns().inodes.dom().contains(p.unwrap())
                },
                VfsError::NotADir(_) => {
                    let p = resolve_from(pre.ns(), pre.root_id(), spec_split(path).drop_last());
                    &&& valid_path(path)
                    &&& p is Some
                    &&& pre.ns().inodes.dom().contains(p.unwrap())
                    &&& pre.ns().inodes[p.unwrap()].kind != NodeKind::Dir
                },
                VfsError::AlreadyExists(_) => {
                    let p = resolve_from(pre.ns(), pre.root_id(), spec_split(path).drop_last());
                    &&& valid_path(path)
                    &&& p is Some
                    &&& pre.ns().inodes.dom().contains(p.unwrap())
                    &&& pre.ns().inodes[p.unwrap()].kind == NodeKind::Dir
                    &&& pre.ns().children.dom().contains((p.unwrap(), spec_split(path).last()))
                },
                VfsError::Io(_) => !(pre.next_id() < u64::MAX && pre.store_bytes().len()
                    + op_need(spec_split(path).last()) <= u64::MAX),
                _ => false,
            }
        },
    }
}

impl Vfs {
    /// Create a node of the given kind at a path: allocate an inode,
    /// log its allocation, its directory entry and its timestamps, and
    /// apply them.
    #[verifier::rlimit(100)]
    #[verifier::spinoff_prover]
    fn create_node(&mut self, path: &str, kind: NodeKind) -> (r: Result<InodeId, VfsError>)
        requires
            old(self).wf(),
        ensures
            create_post(*old(self), path@, kind, *final(self), r),
    {
        let segs = match split_path(path) {
            Ok(s) => s,
            Err(e) => {
                return Err(e);
            },
        };
        let nsegs = segs.len();
        proof {
            assert(seg_views(segs@).take(nsegs - 1) =~= spec_split(path@).drop_last());
            assert(seg_views(segs@)[nsegs - 1] == spec_split(path@).last());
        }
        let parent = match self.resolve_upto(&segs, nsegs - 1) {
            Some(p) => p,
            None => {
                return Err(VfsError::NotFound(path.to_owned()));
            },
        };
        let parent_ix = match self.tables.find_inode(parent) {
            Some(i) => i,
            None => {
                return Err(VfsError::CorruptLog("parent inode missing".to_owned()));
            },
        };
        match self.tables.inodes[parent_ix].kind {
            NodeKind::Dir => {},
            NodeKind::File => {
                return Err(VfsError::NotADir(path.to_owned()));
            },
        }
        let leaf = &segs[nsegs - 1];
        if self.tables.find_child(parent, leaf).is_some() {
            return Err(VfsError::AlreadyExists(path.to_owned()));
        }
        let new_id = self.next_inode;
        let bumped = match new_id.0.checked_add(1) {
            Some(b) => b,
            None => {
                return Err(VfsError::Io("inode ids exhausted".to_owned()));
            },
        };
        // Pre-compute the frames so the whole operation either fits or
        // changes nothing.
        let now = Timestamp::now();
        let name1 = copy_string(leaf);
        let snap = InodeSnapshot {
            id: new_id,
            parent: Some(parent),
            name: name1,
            kind,
            metadata: Metadata { size: 0, created_at: now, modified_at: now },
            extents: Vec::new(),
        };
        let rec1 = Record::InodeAlloc(snap);
        let rec2 = Record::DirEntryAdd {
            entry: DirEntry { parent, inode: new_id, name: copy_string(leaf), kind },
        };
        let rec3 = Record::SetTimes {
            inode: new_id,
            created_at: Some(now),
            modified_at: Some(now),
        };
        let leaf_bytes = leaf.as_str().as_bytes().len();
        let store_len = self.store.len();
        if (leaf_bytes as u128) * 2 + 400 > (u64::MAX as u128) - (store_len as u128) {
            return Err(VfsError::Io("backing store is full".to_owned()));
        }
        proof {
            lemma_op_frame_lens(rec1@, rec2@, rec3@, spec_split(path@).last());
        }
        // Commit: write each record and apply it.
        let ghost ns0 = self.ns();
        self.next_inode = InodeId(bumped);
        proof {
            assert(apply_record_view(ns0, rec1@, None) is Some);
        }
        self.commit_record(&rec1);
        let ghost ns1 = self.ns();
        proof {
            assert(ns1.inodes[parent.0] == ns0.inodes[parent.0]);
            assert(apply_record_view(ns1, rec2@, None) is Some);
        }
        self.commit_record(&rec2);
        let ghost ns2 = self.ns();
        proof {
            assert(apply_record_view(ns2, rec3@, None) is Some);
        }
        self.commit_record(&rec3);
        proof {
            let p0 = create_parent(ns0, old(self).root_id(), path@);
            let leafv = spec_split(path@).last();
            let eff = create_effect(ns0, p0, leafv, kind, old(self).next_id(), now);
            assert(rec1@ == RecordView::InodeAlloc(
                new_node_view(Some(parent), leafv, kind, new_id.0, now),
            ));
            assert(rec2@ == (RecordView::DirEntryAdd {
                entry: DirEntryView { parent, inode: new_id, name: leafv, kind },
            }));
            assert(rec3@ == (RecordView::SetTimes {
                inode: new_id,
                created_at: Some(now),
                modified_at: Some(now),
            }));
            assert(self.ns().inodes =~= eff.inodes);
            assert(self.ns().children =~= eff.children);
            assert(self.ns() == eff);
            assert(self.store_bytes() =~= old(self).store_bytes() + create_frames(
                p0,
                leafv,
                kind,
                old(self).next_id(),
                now,
            ));
        }
        Ok(new_id)
    }

    /// Create a directory at a path.
    pub fn create_dir(&mut self, path: &str) -> (r: Result<(), VfsError>)
        requires
            old(self).wf(),
        ensures
            create_post(
                *old(self),
                path@,
                NodeKind::Dir,
                *final(self),
                match r {
                    Ok(()) => Ok(InodeId(old(self).next_id())),
                    Err(e) => Err(e),
                },
            ),
    {
        match self.create_node(path, NodeKind::Dir) {
            Ok(_) => Ok(()),
            Err(e) => Err(e),
        }
    }
}

/// Frame sizes of a creation's three records, bounded by the leaf name.
proof fn lemma_op_frame_lens(r1: RecordView, r2: RecordView, r3: RecordView, leaf: Seq<char>)
    requires
        r1 matches RecordView::InodeAlloc(s) && s.name == leaf && s.extents.len() == 0
            && s.parent is Some,
        r2 matches RecordView::DirEntryAdd { entry } && entry.name == leaf,
        r3 matches RecordView::SetTimes { created_at, modified_at, .. } && created_at is Some
            && modified_at is Some,
        name_encodable(leaf),
        2 * vstd::utf8::encode_utf8(leaf).len() + 400 <= u64::MAX,
    ensures
        record_encodable(r1),
        record_encodable(r2),
        record_encodable(r3),
        spec_frame_bytes(r1).len() + spec_frame_bytes(r2).len() + spec_frame_bytes(r3).len()
            <= 400 + 2 * crate::no_sql::spec_string_bytes(leaf).len() as int - 16,
        spec_frame_bytes(r1).len() == 83 + crate::no_sql::spec_string_bytes(leaf).len(),
        spec_frame_bytes(r2).len() == 34 + crate::no_sql::spec_string_bytes(leaf).len(),
        spec_frame_bytes(r3).len() == 59,
        crate::no_sql::spec_string_bytes(leaf).len() == 8 + vstd::utf8::encode_utf8(leaf).len(),
{
    vstd::bytes::lemma_auto_spec_u64_to_from_le_bytes();
    vstd::bytes::lemma_auto_spec_u32_to_from_le_bytes();
    vstd::bytes::lemma_auto_spec_u128_to_from_le_bytes();
    if let RecordView::InodeAlloc(s) = r1 {
        assert(crate::no_sql::spec_extent_items_bytes(s.extents) =~= Seq::<u8>::empty());
        assert(crate::no_sql::spec_opt_id_bytes(s.parent).len() == 9);
        assert(crate::no_sql::spec_i128_to_le_bytes(s.metadata.created_at.0).len() == 16);
        assert(crate::no_sql::spec_i128_to_le_bytes(s.metadata.modified_at.0).len() == 16);
        assert(crate::no_sql::spec_extent_list_bytes(s.extents).len() == 8);
        assert(spec_record_body(r1).len() == 66 + crate::no_sql::spec_string_bytes(leaf).len());
    }
    if let RecordView::DirEntryAdd { entry } = r2 {
        assert(spec_record_body(r2).len() == 17 + crate::no_sql::spec_string_bytes(leaf).len());
    }
    if let RecordView::SetTimes { inode, created_at, modified_at } = r3 {
        assert(crate::no_sql::spec_opt_ts_bytes(created_at).len() == 17);
        assert(crate::no_sql::spec_opt_ts_bytes(modified_at).len() == 17);
        assert(spec_record_body(r3).len() == 42);
    }
}

// ---------------------------------------------------------------------
// The file data path: extents overlay, newest write wins.
// ---------------------------------------------------------------------
/// The byte a file shows at logical position `p`: the one stored by the
/// newest extent covering `p`, or zero where no extent reaches.
pub open spec fn extent_byte(es: Seq<Extent>, store: Seq<u8>, p: int) -> u8
    decreases es.len(),
{
    if es.len() == 0 {
        0u8
    } else {
        let e = es.last();
        if e.logical_offset <= p < e.logical_offset + e.len {
            let q = e.file_offset + (p - e.logical_offset);
            if q < store.len() {
                store[q]
            } else {
                0u8
            }
        } else {
            extent_byte(es.drop_last(), store, p)
        }
    }
}

/// Whether the extent that decides position `p` points inside the store.
pub open spec fn extent_src_ok(es: Seq<Extent>, store: Seq<u8>, p: int) -> bool
    decreases es.len(),
{
    if es.len() == 0 {
        true
    } else {
        let e = es.last();
        if e.logical_offset <= p < e.logical_offset + e.len {
            e.file_offset + (p - e.logical_offset) < store.len()
        } else {
            extent_src_ok(es.drop_last(), store, p)
        }
    }
}

/// How many bytes a read of `n` at `off` returns: never past the file's
/// logical size, never more than asked.
pub open spec fn read_len(ns: NsState, ino: u64, off: u64, n: int) -> int {
    let size = ns.inodes[ino].metadata.size;
    if off >= size {
        0
    } else if n <= size - off {
        n
    } else {
        size - off
    }
}

/// The byte `p` of a file, reading the deciding extent from the store.
fn byte_at(extents: &Vec<Extent>, store: &Vec<u8>, p: u64) -> (r: Result<u8, VfsError>)
    ensures
        match r {
            Ok(b) => extent_src_ok(extents@, store@, p as int) && b == extent_byte(
                extents@,
                store@,
                p as int,
            ),
            Err(e) => e is Io && !extent_src_ok(extents@, store@, p as int),
        },
{
    let store_len = store.len();
    let mut i: usize = extents.len();
    proof {
        assert(extents@.take(extents@.len() as int) =~= extents@);
    }
    while i > 0
        invariant
            i <= extents@.len(),
            store_len == store@.len(),
            extent_byte(extents@, store@, p as int) == extent_byte(
                extents@.take(i as int),
                store@,
                p as int,
            ),
            extent_src_ok(extents@, store@, p as int) == extent_src_ok(
                extents@.take(i as int),
                store@,
                p as int,
            ),
        decreases i,
    {
        i = i - 1;
        let e = extents[i];
        proof {
            assert(extents@.take(i + 1).last() == extents@[i as int]);
            assert(extents@.take(i + 1).drop_last() =~= extents@.take(i as int));
        }
        if e.logical_offset <= p && p - e.logical_offset < e.len {
            let within = p - e.logical_offset;
            let q = match e.file_offset.checked_add(within) {
                Some(q) => q,
                None => {
                    return Err(VfsError::Io("extent beyond backing store".to_owned()));
                },
            };
            if q >= store_len as u64 {
                return Err(VfsError::Io("extent beyond backing store".to_owned()));
            }
            return Ok(store[q as usize]);
        }
    }
    proof {
        assert(extents@.take(0) =~= Seq::<Extent>::empty());
    }
    Ok(0)
}

impl Vfs {
    /// Read up to `n` bytes of a file at offset `off`: the newest write
    /// decides each byte, unwritten bytes below the size read as zero,
    /// and nothing past the logical size is returned.
    pub fn read_at(&self, inode: InodeId, off: u64, n: usize) -> (r: Result<Vec<u8>, VfsError>)
        requires
            self.wf(),
        ensures
            match r {
                Ok(v) => {
                    &&& self.ns().inodes.dom().contains(inode.0)
                    &&& self.ns().inodes[inode.0].kind == NodeKind::File
                    &&& v@.len() == read_len(self.ns(), inode.0, off, n as int)
                    &&& forall|i: int|
                        0 <= i < v@.len() ==> v@[i] == extent_byte(
                            self.ns().inodes[inode.0].extents,
                            self.store_bytes(),
                            off + i,
                        )
                },
                Err(e) => match e {
                    VfsError::NotFound(_) => !self.ns().inodes.dom().contains(inode.0),
                    VfsError::NotAFile(_) => self.ns().inodes.dom().contains(inode.0)
                        && self.ns().inodes[inode.0].kind != NodeKind::File,
                    VfsError::Io(_) => self.ns().inodes.dom().contains(inode.0)
                        && self.ns().inodes[inode.0].kind == NodeKind::File && exists|p: int|
                        off <= p < off + read_len(self.ns(), inode.0, off, n as int)
                            && !extent_src_ok(
                            self.ns().inodes[inode.0].extents,
                            self.store_bytes(),
                            p,
                        ),
                    _ => false,
                },
            },
    {
        let ix = match self.tables.find_inode(inode) {
            Some(i) => i,
            None => {
                return Err(VfsError::NotFound("no such inode".to_owned()));
            },
        };
        match self.tables.inodes[ix].kind {
            NodeKind::File => {},
            NodeKind::Dir => {
                return Err(VfsError::NotAFile("not a file".to_owned()));
            },
        }
        let size = self.tables.inodes[ix].metadata.size;
        let mut out: Vec<u8> = Vec::new();
        if off >= size {
            return Ok(out);
        }
        let remaining = size - off;
        let count: u64 = if (n as u64) <= remaining {
            n as u64
        } else {
            remaining
        };
        let mut i: u64 = 0;
        while i < count
            invariant
                self.wf(),
                i <= count,
                count == read_len(self.ns(), inode.0, off, n as int),
                off + count <= u64::MAX,
                ix < self.tables.inodes@.len(),
                self.tables.inodes@[ix as int]@.id.0 == inode.0,
                self.ns().inodes.dom().contains(inode.0),
                self.ns().inodes[inode.0] == self.tables.inodes@[ix as int]@,
                self.ns().inodes[inode.0].kind == NodeKind::File,
                out@.len() == i,
                forall|j: int|
                    0 <= j < i ==> out@[j] == extent_byte(
                        self.ns().inodes[inode.0].extents,
                        self.store_bytes(),
                        off + j,
                    ),
            decreases count - i,
    {
            let b = match byte_at(&self.tables.inodes[ix].extents, &self.store, off + i) {
                Ok(b) => b,
                Err(e) => {
                    proof {
                        assert(off <= off + i < off + read_len(self.ns(), inode.0, off, n as int));
                        assert(!extent_src_ok(
                            self.ns().inodes[inode.0].extents,
                            self.store_bytes(),
                            off + i,
                        ));
                    }
                    return Err(e);
                },
            };
            out.push(b);
            i = i + 1;
        }
        Ok(out)
    }

    /// A file's logical size.
    pub fn len(&self, inode: InodeId) -> (r: Result<u64, VfsError>)
        requires
            self.wf(),
        ensures
            match r {
                Ok(sz) => self.ns().inodes.dom().contains(inode.0)
                    && self.ns().inodes[inode.0].kind == NodeKind::File && sz
                    == self.ns().inodes[inode.0].metadata.size,
                Err(e) => match e {
                    VfsError::NotFound(_) => !self.ns().inodes.dom().contains(inode.0),
                    VfsError::NotAFile(_) => self.ns().inodes.dom().contains(inode.0)
                        && self.ns().inodes[inode.0].kind != NodeKind::File,
                    _ => false,
                },
            },
    {
        let ix = match self.tables.find_inode(inode) {
            Some(i) => i,
            None => {
                return Err(VfsError::NotFound("no such inode".to_owned()));
            },
        };
        match self.tables.inodes[ix].kind {
            NodeKind::File => {},
            NodeKind::Dir => {
                return Err(VfsError::NotAFile("not a file".to_owned()));
            },
        }
        Ok(self.tables.inodes[ix].metadata.size)
    }
}

/// The state after a write: one more extent on the file, its size
/// raised to cover the write, its modification time stamped.
pub open spec fn write_effect(
    ns: NsState,
    ino: u64,
    off: u64,
    len: u64,
    foff: u64,
    t: Timestamp,
) -> NsState {
    let node = ns.inodes[ino];
    let end = sat_add_u64(off, len);
    let new_size = if end > node.metadata.size {
        end
    } else {
        node.metadata.size
    };
    NsState {
        inodes: ns.inodes.insert(
            ino,
            InodeView {
                metadata: Metadata { size: new_size, modified_at: t, ..node.metadata },
                extents: node.extents.push(
                    Extent { logical_offset: off, file_offset: foff, len },
                ),
                ..node
            },
        ),
        children: ns.children,
    }
}

/// The state after a truncate: the size set exactly, the modification
/// time stamped.
pub open spec fn truncate_effect(ns: NsState, ino: u64, len: u64, t: Timestamp) -> NsState {
    let node = ns.inodes[ino];
    NsState {
        inodes: ns.inodes.insert(
            ino,
            InodeView {
                metadata: Metadata { size: len, modified_at: t, ..node.metadata },
                ..node
            },
        ),
        children: ns.children,
    }
}

/// What a committed write leaves behind, for some modification time:
/// the namespace gains the extent, and the store gains the data frame
/// followed by the timestamp frame.
pub open spec fn write_committed(
    pre_ns: NsState,
    pre_store: Seq<u8>,
    post_ns: NsState,
    post_store: Seq<u8>,
    ino: u64,
    off: u64,
    data: Seq<u8>,
) -> bool {
    exists|t: Timestamp|
        {
            &&& post_ns == #[trigger] write_effect(
                pre_ns,
                ino,
                off,
                data.len() as u64,
                (pre_store.len() + 45) as u64,
                t,
            )
            &&& post_store == pre_store + spec_data_frame_bytes(InodeId(ino), off, data)
                + spec_frame_bytes(
                RecordView::SetTimes { inode: InodeId(ino), created_at: None, modified_at: Some(t) },
            )
        }
}

/// What a committed truncate leaves behind, for some modification time.
pub open spec fn truncate_committed(
    pre_ns: NsState,
    pre_store: Seq<u8>,
    post_ns: NsState,
    post_store: Seq<u8>,
    ino: u64,
    len: u64,
) -> bool {
    exists|t: Timestamp|
        {
            &&& post_ns == #[trigger] truncate_effect(pre_ns, ino, len, t)
            &&& post_store == pre_store + spec_frame_bytes(
                RecordView::Truncate { inode: InodeId(ino), len },
            ) + spec_frame_bytes(
                RecordView::SetTimes { inode: InodeId(ino), created_at: None, modified_at: Some(t) },
            )
        }
}

impl Vfs {
    /// Write a buffer into a file at a logical offset: log the data and
    /// the new modification time, then apply both.
    pub fn write_at(&mut self, inode: InodeId, off: u64, buf: &[u8]) -> (r: Result<
        usize,
        VfsError,
    >)
        requires
            old(self).wf(),
        ensures
            final(self).wf(),
            final(self).root_id() == old(self).root_id(),
            final(self).next_id() == old(self).next_id(),
            match r {
                Ok(n) => {
                    &&& n == buf@.len()
                    &&& old(self).ns().inodes.dom().contains(inode.0)
                    &&& old(self).ns().inodes[inode.0].kind == NodeKind::File
                    &&& write_committed(
                        old(self).ns(),
                        old(self).store_bytes(),
                        final(self).ns(),
                        final(self).store_bytes(),
                        inode.0,
                        off,
                        buf@,
                    )
                },
                Err(e) => {
                    &&& final(self).ns() == old(self).ns()
                    &&& final(self).store_bytes() == old(self).store_bytes()
                    &&& match e {
                        VfsError::NotFound(_) => !old(self).ns().inodes.dom().contains(inode.0),
                        VfsError::NotAFile(_) => old(self).ns().inodes.dom().contains(inode.0)
                            && old(self).ns().inodes[inode.0].kind != NodeKind::File,
                        VfsError::Io(_) => !(old(self).store_bytes().len() + buf@.len() + 150
                            <= u64::MAX),
                        _ => false,
                    }
                },
            },
    {
        let ix = match self.tables.find_inode(inode) {
            Some(i) => i,
            None => {
                return Err(VfsError::NotFound("no such inode".to_owned()));
            },
        };
        match self.tables.inodes[ix].kind {
            NodeKind::File => {},
            NodeKind::Dir => {
                return Err(VfsError::NotAFile("not a file".to_owned()));
            },
        }
        let store_len = self.store.len();
        if (buf.len() as u128) + 150 > (u64::MAX as u128) - (store_len as u128) {
            return Err(VfsError::Io("backing store is full".to_owned()));
        }
        let ghost ns0 = self.ns();
        let (_data_crc, foff) = self.commit_data_write(inode, off, buf);
        let now = Timestamp::now();
        let rec = Record::SetTimes { inode, created_at: None, modified_at: Some(now) };
        proof {
            lemma_set_times_frame_len(rec@);
        }
        self.commit_record(&rec);
        proof {
            let eff = write_effect(ns0, inode.0, off, buf@.len() as u64, foff, now);
            assert(self.ns().inodes =~= eff.inodes);
            assert(self.ns().children =~= eff.children);
            assert(self.ns() == eff);
            assert(self.store_bytes() =~= old(self).store_bytes() + spec_data_frame_bytes(
                inode,
                off,
                buf@,
            ) + spec_frame_bytes(rec@));
        }
        Ok(buf.len())
    }

    /// Set a file's logical size: log the truncate and the new
    /// modification time, then apply both.
    pub fn truncate(&mut self, inode: InodeId, len: u64) -> (r: Result<(), VfsError>)
        requires
            old(self).wf(),
        ensures
            final(self).wf(),
            final(self).root_id() == old(self).root_id(),
            final(self).next_id() == old(self).next_id(),
            match r {
                Ok(()) => {
                    &&& old(self).ns().inodes.dom().contains(inode.0)
                    &&& old(self).ns().inodes[inode.0].kind == NodeKind::File
                    &&& truncate_committed(
                        old(self).ns(),
                        old(self).store_bytes(),
                        final(self).ns(),
                        final(self).store_bytes(),
                        inode.0,
                        len,
                    )
                },
                Err(e) => {
                    &&& final(self).ns() == old(self).ns()
                    &&& final(self).store_bytes() == old(self).store_bytes()
                    &&& match e {
                        VfsError::NotFound(_) => !old(self).ns().inodes.dom().contains(inode.0),
                        VfsError::NotAFile(_) => old(self).ns().inodes.dom().contains(inode.0)
                            && old(self).ns().inodes[inode.0].kind != NodeKind::File,
                        VfsError::Io(_) => !(old(self).store_bytes().len() + 150 <= u64::MAX),
                        _ => false,
                    }
                },
            },
    {
        let ix = match self.tables.find_inode(inode) {
            Some(i) => i,
            None => {
                return Err(VfsError::NotFound("no such inode".to_owned()));
            },
        };
        match self.tables.inodes[ix].kind {
            NodeKind::File => {},
            NodeKind::Dir => {
                return Err(VfsError::NotAFile("not a file".to_owned()));
            },
        }
        let store_len = self.store.len();
        if 150 > (u64::MAX as u128) - (store_len as u128) {
            return Err(VfsError::Io("backing store is full".to_owned()));
        }
        let ghost ns0 = self.ns();
        let rec1 = Record::Truncate { inode, len };
        let now = Timestamp::now();
        let rec2 = Record::SetTimes { inode, created_at: None, modified_at: Some(now) };
        proof {
            lemma_truncate_frame_len(rec1@);
            lemma_set_times_frame_len(rec2@);
        }
        self.commit_record(&rec1);
        self.commit_record(&rec2);
        proof {
            let eff = truncate_effect(ns0, inode.0, len, now);
            assert(self.ns().inodes =~= eff.inodes);
            assert(self.ns().children =~= eff.children);
            assert(self.ns() == eff);
            assert(self.store_bytes() =~= old(self).store_bytes() + spec_frame_bytes(rec1@)
                + spec_frame_bytes(rec2@));
        }
        Ok(())
    }
}

/// A `SetTimes` record with no created time and one modified time frames
/// to 43 bytes.
proof fn lemma_set_times_frame_len(r: RecordView)
    requires
        r matches RecordView::SetTimes { created_at, modified_at, .. } && created_at is None
            && modified_at is Some,
    ensures
        record_encodable(r),
        spec_frame_bytes(r).len() == 43,
{
    vstd::bytes::lemma_auto_spec_u64_to_from_le_bytes();
    vstd::bytes::lemma_auto_spec_u32_to_from_le_bytes();
    vstd::bytes::lemma_auto_spec_u128_to_from_le_bytes();
    if let RecordView::SetTimes { inode, created_at, modified_at } = r {
        assert(crate::no_sql::spec_opt_ts_bytes(created_at).len() == 1);
        assert(crate::no_sql::spec_opt_ts_bytes(modified_at).len() == 17);
        assert(spec_record_body(r).len() == 26);
    }
}

/// A `Truncate` record frames to 33 bytes.
proof fn lemma_truncate_frame_len(r: RecordView)
    requires
        r is Truncate,
    ensures
        record_encodable(r),
        spec_frame_bytes(r).len() == 33,
{
    vstd::bytes::lemma_auto_spec_u64_to_from_le_bytes();
    vstd::bytes::lemma_auto_spec_u32_to_from_le_bytes();
    if let RecordView::Truncate { inode, len } = r {
        assert(spec_record_body(r).len() == 16);
    }
}

// ---------------------------------------------------------------------
// Namespace lookups and removals.
// ---------------------------------------------------------------------
/// What a path names, with the empty path standing for the root.
pub open spec fn resolve_node(ns: NsState, root: u64, path: Seq<char>) -> Option<u64> {
    if path.len() == 0 {
        Some(root)
    } else {
        spec_resolve(ns, root, path)
    }
}

/// Whether any entry lives under the given directory.
pub open spec fn has_children(ns: NsState, id: u64) -> bool {
    exists|k: (u64, Seq<char>)| #[trigger] ns.children.dom().contains(k) && k.0 == id
}

/// What `remove_file` / `remove_dir` guarantee.
pub open spec fn unlink_post(
    pre: Vfs,
    path: Seq<char>,
    expect: NodeKind,
    post: Vfs,
    r: Result<(), VfsError>,
) -> bool {
    let parent = resolve_from(pre.ns(), pre.root_id(), spec_split(path).drop_last());
    let leaf = spec_split(path).last();
    let key = (parent.unwrap(), leaf);
    let child = pre.ns().children[key];
    &&& post.wf()
    &&& post.root_id() == pre.root_id()
    &&& post.next_id() == pre.next_id()
    &&& match r {
        Ok(()) => {
            &&& valid_path(path)
            &&& parent is Some
            &&& pre.ns().inodes.dom().contains(parent.unwrap())
            &&& pre.ns().inodes[parent.unwrap()].kind == NodeKind::Dir
            &&& pre.ns().children.dom().contains(key)
            &&& pre.ns().inodes.dom().contains(child)
            &&& pre.ns().inodes[child].kind == expect
            &&& (expect == NodeKind::Dir ==> !has_children(pre.ns(), child))
            &&& post.ns() == (NsState {
                inodes: pre.ns().inodes,
                children: pre.ns().children.remove(key),
            })
            &&& post.store_bytes() == pre.store_bytes() + spec_frame_bytes(
                RecordView::DirEntryRemove { parent: InodeId(parent.unwrap()), name: leaf, inode: InodeId(child) },
            )
        },
        Err(e) => {
            &&& post.ns() == pre.ns()
            &&& post.store_bytes() == pre.store_bytes()
            &&& match e {
                VfsError::InvalidPath(_) => !valid_path(path) || (valid_path(path)
                    && parent is Some && pre.ns().children.dom().contains(key) && expect
                    == NodeKind::Dir && has_children(pre.ns(), child)),
                VfsError::NotFound(_) => valid_path(path) && (parent is None || (
                pre.ns().inodes.dom().contains(parent.unwrap())
                    && !pre.ns().children.dom().contains(key))),
                VfsError::CorruptLog(_) => valid_path(path) && parent is Some && (
                !pre.ns().inodes.dom().contains(parent.unwrap())
                    || pre.ns().inodes[parent.unwrap()].kind != NodeKind::Dir || (
                pre.ns().children.dom().contains(key) && !pre.ns().inodes.dom().contains(child))),
                VfsError::NotAFile(_) => expect == NodeKind::File && valid_path(path)
                    && parent is Some && pre.ns().children.dom().contains(key)
                    && pre.ns().inodes.dom().contains(child) && pre.ns().inodes[child].kind
                    != expect,
                VfsError::NotADir(_) => expect == NodeKind::Dir && valid_path(path)
                    && parent is Some && pre.ns().children.dom().contains(key)
                    && pre.ns().inodes.dom().contains(child) && pre.ns().inodes[child].kind
                    != expect,
                VfsError::Io(_) => !(pre.store_bytes().len() + op_need(leaf) <= u64::MAX),
                _ => false,
            }
        },
    }
}

impl Vfs {
    /// Resolve a path to the inode it names.
    pub fn path_to_inode(&self, path: &str) -> (r: Result<InodeId, VfsError>)
        requires
            self.wf(),
        ensures
            match r {
                Ok(id) => spec_resolve(self.ns(), self.root_id(), path@) == Some(id.0),
                Err(e) => spec_resolve(self.ns(), self.root_id(), path@) is None && (
                e is InvalidPath <==> !valid_path(path@)) && (e is InvalidPath || e is NotFound),
            },
    {
        let segs = match split_path(path) {
            Ok(s) => s,
            Err(e) => {
                return Err(e);
            },
        };
        proof {
            assert(seg_views(segs@).take(segs@.len() as int) =~= spec_split(path@));
        }
        match self.resolve_upto(&segs, segs.len()) {
            Some(id) => Ok(id),
            None => Err(VfsError::NotFound(path.to_owned())),
        }
    }

    /// Whether a path names anything.
    pub fn node_exists(&self, path: &str) -> (r: bool)
        requires
            self.wf(),
        ensures
            r == (spec_resolve(self.ns(), self.root_id(), path@) is Some),
    {
        match self.path_to_inode(path) {
            Ok(_) => true,
            Err(_) => false,
        }
    }

    /// The metadata of what a path names; the empty path names the root.
    pub fn metadata(&self, path: &str) -> (r: Result<Metadata, VfsError>)
        requires
            self.wf(),
        ensures
            match r {
                Ok(m) => {
                    let node = resolve_node(self.ns(), self.root_id(), path@);
                    &&& node is Some
                    &&& self.ns().inodes.dom().contains(node.unwrap())
                    &&& m == self.ns().inodes[node.unwrap()].metadata
                },
                Err(e) => {
                    let node = resolve_node(self.ns(), self.root_id(), path@);
                    &&& (e is InvalidPath <==> (path@.len() > 0 && !valid_path(path@)))
                    &&& (e is NotFound <==> (node is None && valid_path(path@)) || (node is Some
                        && !self.ns().inodes.dom().contains(node.unwrap())))
                    &&& (e is InvalidPath || e is NotFound)
                },
            },
    {
        let inode_id = if path.unicode_len() == 0 {
            self.header.root
        } else {
            match self.path_to_inode(path) {
                Ok(id) => id,
                Err(e) => {
                    return Err(e);
                },
            }
        };
        match self.tables.find_inode(inode_id) {
            Some(ix) => Ok(self.tables.inodes[ix].metadata),
            None => Err(VfsError::NotFound(path.to_owned())),
        }
    }

    /// Remove the named entry, after checking its kind and, for
    /// directories, emptiness. Only the entry goes: the inode and its
    /// extents stay in the table, and its bytes in the store, until a
    /// checkpoint stops carrying them.
    fn unlink(&mut self, path: &str, expect_kind: NodeKind) -> (r: Result<(), VfsError>)
        requires
            old(self).wf(),
        ensures
            unlink_post(*old(self), path@, expect_kind, *final(self), r),
    {
        let segs = match split_path(path) {
            Ok(s) => s,
            Err(e) => {
                return Err(e);
            },
        };
        let nsegs = segs.len();
        proof {
            assert(seg_views(segs@).take(nsegs - 1) =~= spec_split(path@).drop_last());
            assert(seg_views(segs@)[nsegs - 1] == spec_split(path@).last());
        }
        let parent = match self.resolve_upto(&segs, nsegs - 1) {
            Some(p) => p,
            None => {
                return Err(VfsError::NotFound(path.to_owned()));
            },
        };
        let parent_ix = match self.tables.find_inode(parent) {
            Some(i) => i,
            None => {
                return Err(VfsError::CorruptLog("parent inode missing".to_owned()));
            },
        };
        match self.tables.inodes[parent_ix].kind {
            NodeKind::Dir => {},
            NodeKind::File => {
                return Err(VfsError::CorruptLog("parent inode is not a dir".to_owned()));
            },
        }
        let name = &segs[nsegs - 1];
        let child = match self.tables.lookup_child(parent, name) {
            Some(c) => c,
            None => {
                return Err(VfsError::NotFound(path.to_owned()));
            },
        };
        let child_ix = match self.tables.find_inode(child) {
            Some(i) => i,
            None => {
                return Err(VfsError::CorruptLog("unlink inode missing".to_owned()));
            },
        };
        let child_kind = self.tables.inodes[child_ix].kind;
        let kind_matches = match (child_kind, expect_kind) {
            (NodeKind::File, NodeKind::File) => true,
            (NodeKind::Dir, NodeKind::Dir) => true,
            _ => false,
        };
        if !kind_matches {
            return match expect_kind {
                NodeKind::File => Err(VfsError::NotAFile(path.to_owned())),
                NodeKind::Dir => Err(VfsError::NotADir(path.to_owned())),
            };
        }
        match expect_kind {
            NodeKind::Dir => {
                if self.any_child_of(child) {
                    return Err(VfsError::InvalidPath("directory not empty".to_owned()));
                }
            },
            NodeKind::File => {},
        }
        let name_bytes = name.as_str().as_bytes().len();
        let store_len = self.store.len();
        if (name_bytes as u128) * 2 + 400 > (u64::MAX as u128) - (store_len as u128) {
            return Err(VfsError::Io("backing store is full".to_owned()));
        }
        let rec = Record::DirEntryRemove { parent, name: copy_string(name), inode: child };
        proof {
            lemma_remove_frame_len(rec@, spec_split(path@).last());
        }
        let ghost ns0 = self.ns();
        self.commit_record(&rec);
        proof {
            assert(self.ns().inodes =~= ns0.inodes);
            assert(self.ns().children =~= ns0.children.remove(
                (parent.0, spec_split(path@).last()),
            ));
        }
        Ok(())
    }

    /// Whether any entry lives directly under the given inode.
    fn any_child_of(&self, id: InodeId) -> (r: bool)
        requires
            self.wf(),
        ensures
            r == has_children(self.ns(), id.0),
    {
        let mut i: usize = 0;
        while i < self.tables.children.len()
            invariant
                self.wf(),
                i <= self.tables.children@.len(),
                forall|j: int|
                    0 <= j < i ==> (#[trigger] self.tables.children@[j]).parent.0 != id.0,
            decreases self.tables.children@.len() - i,
        {
            if self.tables.children[i].parent.0 == id.0 {
                proof {
                    let k = (self.tables.children@[i as int].parent.0,
                    self.tables.children@[i as int].name@);
                    assert(self.ns().children.dom().contains(k) && k.0 == id.0);
                }
                return true;
            }
            i = i + 1;
        }
        proof {
            if has_children(self.ns(), id.0) {
                let k = choose|k: (u64, Seq<char>)|
                    #[trigger] self.ns().children.dom().contains(k) && k.0 == id.0;
                let w = choose|w: int|
                    0 <= w < self.tables.children@.len() && ((
                    #[trigger] self.tables.children@[w]).parent.0,
                    self.tables.children@[w].name@) == k;
                assert(false);
            }
        }
        false
    }

    /// Remove the named file.
    pub fn remove_file(&mut self, path: &str) -> (r: Result<(), VfsError>)
        requires
            old(self).wf(),
        ensures
            unlink_post(*old(self), path@, NodeKind::File, *final(self), r),
    {
        self.unlink(path, NodeKind::File)
    }

    /// Remove the named directory; it must be empty.
    pub fn remove_dir(&mut self, path: &str) -> (r: Result<(), VfsError>)
        requires
            old(self).wf(),
        ensures
            unlink_post(*old(self), path@, NodeKind::Dir, *final(self), r),
    {
        self.unlink(path, NodeKind::Dir)
    }
}

/// A `DirEntryRemove` record's frame is small: the name plus 33 bytes.
proof fn lemma_remove_frame_len(r: RecordView, leaf: Seq<char>)
    requires
        r matches RecordView::DirEntryRemove { name, .. } && name == leaf,
        name_encodable(leaf),
        2 * vstd::utf8::encode_utf8(leaf).len() + 400 <= u64::MAX,
    ensures
        record_encodable(r),
        spec_frame_bytes(r).len() == 33 + crate::no_sql::spec_string_bytes(leaf).len(),
        crate::no_sql::spec_string_bytes(leaf).len() == 8 + vstd::utf8::encode_utf8(leaf).len(),
        spec_frame_bytes(r).len() <= 400 + 2 * crate::no_sql::spec_string_bytes(leaf).len() as int
            - 16,
{
    vstd::bytes::lemma_auto_spec_u64_to_from_le_bytes();
    vstd::bytes::lemma_auto_spec_u32_to_from_le_bytes();
    if let RecordView::DirEntryRemove { parent, name, inode } = r {
        assert(spec_record_body(r).len() == 16 + crate::no_sql::spec_string_bytes(leaf).len());
    }
}

// ---------------------------------------------------------------------
// Rename.
// ---------------------------------------------------------------------
/// The state after a rename: the entry moves to its new key, and the
/// inode's own parent, name and modification time follow.
pub open spec fn rename_effect(
    ns: NsState,
    ino: u64,
    old_parent: u64,
    new_parent: u64,
    old_name: Seq<char>,
    new_name: Seq<char>,
    t: Timestamp,
) -> NsState {
    let node = ns.inodes[ino];
    NsState {
        inodes: ns.inodes.insert(
            ino,
            InodeView {
                parent: Some(InodeId(new_parent)),
                name: new_name,
                metadata: Metadata { modified_at: t, ..node.metadata },
                ..node
            },
        ),
        children: ns.children.remove((old_parent, old_name)).insert(
            (new_parent, new_name),
            ino,
        ),
    }
}

/// What `rename` guarantees.
pub open spec fn rename_post(
    pre: Vfs,
    old_path: Seq<char>,
    new_path: Seq<char>,
    post: Vfs,
    r: Result<(), VfsError>,
) -> bool {
    let op = resolve_from(pre.ns(), pre.root_id(), spec_split(old_path).drop_last());
    let on = spec_split(old_path).last();
    let np = resolve_from(pre.ns(), pre.root_id(), spec_split(new_path).drop_last());
    let nn = spec_split(new_path).last();
    let okey = (op.unwrap(), on);
    let nkey = (np.unwrap(), nn);
    let ino = pre.ns().children[okey];
    &&& post.wf()
    &&& post.root_id() == pre.root_id()
    &&& post.next_id() == pre.next_id()
    &&& match r {
        Ok(()) => {
            &&& valid_path(old_path) && valid_path(new_path)
            &&& op is Some && np is Some
            &&& pre.ns().children.dom().contains(okey)
            &&& pre.ns().inodes.dom().contains(np.unwrap())
            &&& pre.ns().inodes[np.unwrap()].kind == NodeKind::Dir
            &&& !pre.ns().children.dom().contains(nkey)
            &&& pre.ns().inodes.dom().contains(ino)
            &&& pre.ns().inodes.dom().contains(op.unwrap())
            &&& pre.ns().inodes[op.unwrap()].kind == NodeKind::Dir
            &&& exists|t: Timestamp|
                {
                    &&& post.ns() == #[trigger] rename_effect(
                        pre.ns(),
                        ino,
                        op.unwrap(),
                        np.unwrap(),
                        on,
                        nn,
                        t,
                    )
                    &&& post.store_bytes() == pre.store_bytes() + spec_frame_bytes(
                        RecordView::Rename {
                            inode: InodeId(ino),
                            old_parent: InodeId(op.unwrap()),
                            new_parent: InodeId(np.unwrap()),
                            old_name: on,
                            new_name: nn,
                        },
                    ) + spec_frame_bytes(
                        RecordView::SetTimes {
                            inode: InodeId(ino),
                            created_at: None,
                            modified_at: Some(t),
                        },
                    )
                }
        },
        Err(e) => {
            &&& post.ns() == pre.ns()
            &&& post.store_bytes() == pre.store_bytes()
            &&& match e {
                VfsError::InvalidPath(_) => !valid_path(old_path) || !valid_path(new_path),
                VfsError::NotFound(_) => valid_path(old_path) && valid_path(new_path) && (
                op is None || !pre.ns().children.dom().contains(okey) || np is None
                    || !pre.ns().inodes.dom().contains(np.unwrap())),
                VfsError::NotADir(_) => valid_path(old_path) && valid_path(new_path)
                    && np is Some && pre.ns().inodes.dom().contains(np.unwrap())
                    && pre.ns().inodes[np.unwrap()].kind != NodeKind::Dir,
                VfsError::AlreadyExists(_) => valid_path(old_path) && valid_path(new_path)
                    && np is Some && pre.ns().children.dom().contains(nkey),
                VfsError::CorruptLog(_) => valid_path(old_path) && valid_path(new_path)
                    && op is Some && pre.ns().children.dom().contains(okey) && (
                !pre.ns().inodes.dom().contains(op.unwrap())
                    || pre.ns().inodes[op.unwrap()].kind != NodeKind::Dir
                    || !pre.ns().inodes.dom().contains(ino)),
                VfsError::Io(_) => !(pre.store_bytes().len() + op_need(on) + op_need(nn)
                    <= u64::MAX),
                _ => false,
            }
        },
    }
}

impl Vfs {
    /// Move an entry to a new parent and name. The destination must be
    /// free; occupied destinations are never overwritten.
    #[verifier::rlimit(100)]
    pub fn rename(&mut self, old_path: &str, new_path: &str) -> (r: Result<(), VfsError>)
        requires
            old(self).wf(),
        ensures
            rename_post(*old(self), old_path@, new_path@, *final(self), r),
    {
        let osegs = match split_path(old_path) {
            Ok(s) => s,
            Err(e) => {
                return Err(e);
            },
        };
        let nsegs_v = match split_path(new_path) {
            Ok(s) => s,
            Err(e) => {
                return Err(e);
            },
        };
        let on_count = osegs.len();
        let nn_count = nsegs_v.len();
        proof {
            assert(seg_views(osegs@).take(on_count - 1) =~= spec_split(old_path@).drop_last());
            assert(seg_views(osegs@)[on_count - 1] == spec_split(old_path@).last());
            assert(seg_views(nsegs_v@).take(nn_count - 1) =~= spec_split(new_path@).drop_last());
            assert(seg_views(nsegs_v@)[nn_count - 1] == spec_split(new_path@).last());
        }
        let old_parent = match self.resolve_upto(&osegs, on_count - 1) {
            Some(p) => p,
            None => {
                return Err(VfsError::NotFound(old_path.to_owned()));
            },
        };
        let old_name = &osegs[on_count - 1];
        let inode = match self.tables.lookup_child(old_parent, old_name) {
            Some(c) => c,
            None => {
                return Err(VfsError::NotFound(old_path.to_owned()));
            },
        };
        let new_parent = match self.resolve_upto(&nsegs_v, nn_count - 1) {
            Some(p) => p,
            None => {
                return Err(VfsError::NotFound(new_path.to_owned()));
            },
        };
        let new_name = &nsegs_v[nn_count - 1];
        let np_ix = match self.tables.find_inode(new_parent) {
            Some(i) => i,
            None => {
                return Err(VfsError::NotFound(new_path.to_owned()));
            },
        };
        match self.tables.inodes[np_ix].kind {
            NodeKind::Dir => {},
            NodeKind::File => {
                return Err(VfsError::NotADir(new_path.to_owned()));
            },
        }
        if self.tables.find_child(new_parent, new_name).is_some() {
            return Err(VfsError::AlreadyExists(new_path.to_owned()));
        }
        // The apply rules also need the old parent to be a live
        // directory and the inode itself to be live.
        let op_ix = match self.tables.find_inode(old_parent) {
            Some(i) => i,
            None => {
                return Err(VfsError::CorruptLog("rename old_parent missing".to_owned()));
            },
        };
        match self.tables.inodes[op_ix].kind {
            NodeKind::Dir => {},
            NodeKind::File => {
                return Err(VfsError::CorruptLog("rename old_parent not dir".to_owned()));
            },
        }
        if self.tables.find_inode(inode).is_none() {
            return Err(VfsError::CorruptLog("rename inode missing".to_owned()));
        }
        let on_bytes = old_name.as_str().as_bytes().len();
        let nn_bytes = new_name.as_str().as_bytes().len();
        let store_len = self.store.len();
        if (on_bytes as u128) * 2 + (nn_bytes as u128) * 2 + 800 > (u64::MAX as u128) - (
        store_len as u128) {
            return Err(VfsError::Io("backing store is full".to_owned()));
        }
        let rec1 = Record::Rename {
            inode,
            old_parent,
            new_parent,
            old_name: copy_string(old_name),
            new_name: copy_string(new_name),
        };
        let now = Timestamp::now();
        let rec2 = Record::SetTimes { inode, created_at: None, modified_at: Some(now) };
        proof {
            lemma_rename_frame_len(
                rec1@,
                spec_split(old_path@).last(),
                spec_split(new_path@).last(),
            );
            lemma_set_times_frame_len(rec2@);
            assert(on_bytes == vstd::utf8::encode_utf8(spec_split(old_path@).last()).len());
            assert(nn_bytes == vstd::utf8::encode_utf8(spec_split(new_path@).last()).len());
            assert(self.store@.len() + 2 * on_bytes + 2 * nn_bytes + 800 <= u64::MAX);
            assert(spec_frame_bytes(rec1@).len() == 57 + on_bytes + nn_bytes);
            assert(self.store@.len() + spec_frame_bytes(rec1@).len() + 43 <= u64::MAX);
        }
        let ghost ns0 = self.ns();
        self.commit_record(&rec1);
        proof {
            assert(apply_record_view(self.ns(), rec2@, None) is Some);
        }
        self.commit_record(&rec2);
        proof {
            let eff = rename_effect(
                ns0,
                inode.0,
                old_parent.0,
                new_parent.0,
                spec_split(old_path@).last(),
                spec_split(new_path@).last(),
                now,
            );
            assert(self.ns().inodes =~= eff.inodes);
            assert(self.ns().children =~= eff.children);
            assert(self.ns() == eff);
            assert(self.store_bytes() =~= old(self).store_bytes() + spec_frame_bytes(rec1@)
                + spec_frame_bytes(rec2@));
        }
        Ok(())
    }
}

/// A `Rename` record's frame is the two names plus 57 bytes.
proof fn lemma_rename_frame_len(r: RecordView, on: Seq<char>, nn: Seq<char>)
    requires
        r matches RecordView::Rename { old_name, new_name, .. } && old_name == on && new_name
            == nn,
        name_encodable(on),
        name_encodable(nn),
        2 * vstd::utf8::encode_utf8(on).len() + 2 * vstd::utf8::encode_utf8(nn).len() + 800
            <= u64::MAX,
    ensures
        record_encodable(r),
        spec_frame_bytes(r).len() == 41 + crate::no_sql::spec_string_bytes(on).len()
            + crate::no_sql::spec_string_bytes(nn).len(),
        crate::no_sql::spec_string_bytes(on).len() == 8 + vstd::utf8::encode_utf8(on).len(),
        crate::no_sql::spec_string_bytes(nn).len() == 8 + vstd::utf8::encode_utf8(nn).len(),
{
    vstd::bytes::lemma_auto_spec_u64_to_from_le_bytes();
    vstd::bytes::lemma_auto_spec_u32_to_from_le_bytes();
    if let RecordView::Rename { inode, old_parent, new_parent, old_name, new_name } = r {
        assert(spec_record_body(r).len() == 24 + crate::no_sql::spec_string_bytes(on).len()
            + crate::no_sql::spec_string_bytes(nn).len());
    }
}

// ---------------------------------------------------------------------
// Directory listing, in ascending name order.
// ---------------------------------------------------------------------
/// A directory listing: an immutable snapshot of the entries, walked
/// once from the front.
pub struct ReadDir {
    entries: Vec<DirEntry>,
    pos: usize,
}

impl ReadDir {
    /// The entries of the snapshot.
    pub closed spec fn entries_view(&self) -> Seq<DirEntryView> {
        self.entries@.map_values(|e: DirEntry| e@)
    }

    /// How many entries have been yielded.
    pub closed spec fn position(&self) -> int {
        self.pos as int
    }

    /// Yield the next entry of the snapshot, or nothing once exhausted.
    pub fn next(&mut self) -> (r: Option<DirEntry>)
        ensures
            final(self).entries_view() == old(self).entries_view(),
            old(self).position() < old(self).entries_view().len() ==> {
                &&& r matches Some(e)
                &&& e@ == old(self).entries_view()[old(self).position()]
                &&& final(self).position() == old(self).position() + 1
            },
            old(self).position() >= old(self).entries_view().len() ==> (r is None
                && final(self).position() == old(self).position()),
    {
        if self.pos >= self.entries.len() {
            return None;
        }
        let e = &self.entries[self.pos];
        let out = DirEntry {
            parent: e.parent,
            inode: e.inode,
            name: copy_string(&e.name),
            kind: e.kind,
        };
        self.pos = self.pos + 1;
        Some(out)
    }

    /// How many entries the snapshot holds in total.
    pub fn count(&self) -> (r: usize)
        ensures
            r == self.entries_view().len(),
    {
        self.entries.len()
    }
}

/// A correct listing of directory `dir`: every yielded entry is a live
/// child with its real kind, every child appears, and names ascend.
pub open spec fn read_dir_entries_ok(ns: NsState, dir: u64, es: Seq<DirEntryView>) -> bool {
    &&& forall|i: int|
        0 <= i < es.len() ==> {
            &&& (#[trigger] es[i]).parent.0 == dir
            &&& ns.children.dom().contains((dir, es[i].name))
            &&& ns.children[(dir, es[i].name)] == es[i].inode.0
            &&& ns.inodes.dom().contains(es[i].inode.0)
            &&& ns.inodes[es[i].inode.0].kind == es[i].kind
        }
    &&& forall|k: (u64, Seq<char>)|
        #[trigger] ns.children.dom().contains(k) && k.0 == dir ==> exists|i: int|
            0 <= i < es.len() && (#[trigger] es[i]).name == k.1
    &&& forall|i: int, j: int|
        #![trigger es[i], es[j]]
        0 <= i < j < es.len() ==> lex_le(es[i].name, es[j].name)
    &&& forall|i: int, j: int|
        #![trigger es[i], es[j]]
        0 <= i < j < es.len() ==> es[i].name != es[j].name
}

impl Vfs {
    /// One entry for each child of the directory, each carrying its
    /// child's real kind; names are pairwise distinct because the child
    /// index is keyed by them.
    #[verifier::rlimit(100)]
    fn collect_dir_entries(&self, dir_id: InodeId) -> (r: Result<Vec<DirEntry>, VfsError>)
        requires
            self.wf(),
        ensures
            match r {
                Ok(v) => {
                    &&& forall|j: int|
                        0 <= j < v@.len() ==> {
                            &&& (#[trigger] v@[j])@.parent.0 == dir_id.0
                            &&& self.ns().children.dom().contains((dir_id.0, v@[j]@.name))
                            &&& self.ns().children[(dir_id.0, v@[j]@.name)] == v@[j]@.inode.0
                            &&& self.ns().inodes.dom().contains(v@[j]@.inode.0)
                            &&& self.ns().inodes[v@[j]@.inode.0].kind == v@[j]@.kind
                        }
                    &&& forall|k: (u64, Seq<char>)|
                        #[trigger] self.ns().children.dom().contains(k) && k.0 == dir_id.0
                            ==> exists|w: int|
                            0 <= w < v@.len() && (#[trigger] v@[w])@.name == k.1
                },
                Err(e) => e is CorruptLog && exists|k: (u64, Seq<char>)|
                    #[trigger] self.ns().children.dom().contains(k) && k.0 == dir_id.0
                        && !self.ns().inodes.dom().contains(self.ns().children[k]),
            },
    {
        let mut collected: Vec<DirEntry> = Vec::new();
        let mut i: usize = 0;
        while i < self.tables.children.len()
            invariant
                self.wf(),
                i <= self.tables.children@.len(),
                forall|j: int|
                    0 <= j < collected@.len() ==> {
                        &&& (#[trigger] collected@[j])@.parent.0 == dir_id.0
                        &&& self.ns().children.dom().contains((dir_id.0, collected@[j]@.name))
                        &&& self.ns().children[(dir_id.0, collected@[j]@.name)]
                            == collected@[j]@.inode.0
                        &&& self.ns().inodes.dom().contains(collected@[j]@.inode.0)
                        &&& self.ns().inodes[collected@[j]@.inode.0].kind == collected@[j]@.kind
                    },
                forall|j: int|
                    0 <= j < i && (#[trigger] self.tables.children@[j]).parent.0 == dir_id.0
                        ==> exists|w: int|
                        0 <= w < collected@.len() && (#[trigger] collected@[w])@.name
                            == self.tables.children@[j].name@,
            decreases self.tables.children@.len() - i,
        {
            let e = &self.tables.children[i];
            if e.parent.0 == dir_id.0 {
                let child = e.child;
                let cix = match self.tables.find_inode(child) {
                    Some(c) => c,
                    None => {
                        proof {
                            let k = (self.tables.children@[i as int].parent.0,
                            self.tables.children@[i as int].name@);
                            assert(self.ns().children.dom().contains(k) && k.0 == dir_id.0
                                && !self.ns().inodes.dom().contains(self.ns().children[k]));
                        }
                        return Err(VfsError::CorruptLog("child inode missing".to_owned()));
                    },
                };
                let kind = self.tables.inodes[cix].kind;
                let entry = DirEntry {
                    parent: dir_id,
                    inode: child,
                    name: copy_string(&e.name),
                    kind,
                };
                let ghost pre_collected = collected@;
                collected.push(entry);
                proof {
                    assert forall|j: int|
                        0 <= j < i + 1 && (#[trigger] self.tables.children@[j]).parent.0
                            == dir_id.0 implies (exists|w: int|
                        0 <= w < collected@.len() && (#[trigger] collected@[w])@.name
                            == self.tables.children@[j].name@) by {
                        if j == i {
                            assert(collected@[collected@.len() - 1]@.name
                                == self.tables.children@[i as int].name@);
                        } else {
                            let w0 = choose|w0: int|
                                0 <= w0 < pre_collected.len() && (
                                #[trigger] pre_collected[w0])@.name
                                    == self.tables.children@[j].name@;
                            assert(collected@[w0]@.name == self.tables.children@[j].name@);
                        }
                    }
                }
            }
            i = i + 1;
        }
        proof {
            assert forall|k: (u64, Seq<char>)|
                #[trigger] self.ns().children.dom().contains(k) && k.0 == dir_id.0 implies (
            exists|w: int|
                0 <= w < collected@.len() && (#[trigger] collected@[w])@.name == k.1) by {
                let j = choose|j: int|
                    0 <= j < self.tables.children@.len() && ((
                    #[trigger] self.tables.children@[j]).parent.0,
                    self.tables.children@[j].name@) == k;
            }
        }
        Ok(collected)
    }

    /// List a directory's entries, ascending by name. The empty path
    /// lists the root.
    #[verifier::rlimit(100)]
    pub fn read_dir(&self, path: &str) -> (r: Result<ReadDir, VfsError>)
        requires
            self.wf(),
        ensures
            match r {
                Ok(rd) => {
                    let node = resolve_node(self.ns(), self.root_id(), path@);
                    &&& node is Some
                    &&& self.ns().inodes.dom().contains(node.unwrap())
                    &&& self.ns().inodes[node.unwrap()].kind == NodeKind::Dir
                    &&& rd.position() == 0
                    &&& read_dir_entries_ok(self.ns(), node.unwrap(), rd.entries_view())
                },
                Err(e) => {
                    let node = resolve_node(self.ns(), self.root_id(), path@);
                    &&& match e {
                        VfsError::InvalidPath(_) => path@.len() > 0 && !valid_path(path@),
                        VfsError::NotFound(_) => node is None || !self.ns().inodes.dom().contains(
                            node.unwrap(),
                        ),
                        VfsError::NotADir(_) => node is Some && self.ns().inodes.dom().contains(
                            node.unwrap(),
                        ) && self.ns().inodes[node.unwrap()].kind != NodeKind::Dir,
                        VfsError::CorruptLog(_) => node is Some && exists|k: (u64, Seq<char>)|
                            #[trigger] self.ns().children.dom().contains(k) && k.0
                                == node.unwrap() && !self.ns().inodes.dom().contains(
                                self.ns().children[k],
                            ),
                        _ => false,
                    }
                },
            },
    {
        let dir_id = if path.unicode_len() == 0 {
            self.header.root
        } else {
            match self.path_to_inode(path) {
                Ok(id) => id,
                Err(e) => {
                    return Err(e);
                },
            }
        };
        let dix = match self.tables.find_inode(dir_id) {
            Some(i) => i,
            None => {
                return Err(VfsError::NotFound(path.to_owned()));
            },
        };
        match self.tables.inodes[dix].kind {
            NodeKind::Dir => {},
            NodeKind::File => {
                return Err(VfsError::NotADir(path.to_owned()));
            },
        }
        let collected = match self.collect_dir_entries(dir_id) {
            Ok(v) => v,
            Err(e) => {
                return Err(e);
            },
        };
        let ghost valid_entry = (|e: DirEntryView|
            {
                &&& e.parent.0 == dir_id.0
                &&& self.ns().children.dom().contains((dir_id.0, e.name))
                &&& self.ns().children[(dir_id.0, e.name)] == e.inode.0
                &&& self.ns().inodes.dom().contains(e.inode.0)
                &&& self.ns().inodes[e.inode.0].kind == e.kind
            });
        let sorted = sort_entries(collected, Ghost(valid_entry));
        proof {
            let es = sorted@.map_values(|e: DirEntry| e@);
            assert forall|i: int| 0 <= i < es.len() implies {
                &&& (#[trigger] es[i]).parent.0 == dir_id.0
                &&& self.ns().children.dom().contains((dir_id.0, es[i].name))
                &&& self.ns().children[(dir_id.0, es[i].name)] == es[i].inode.0
                &&& self.ns().inodes.dom().contains(es[i].inode.0)
                &&& self.ns().inodes[es[i].inode.0].kind == es[i].kind
            } by {
                assert(valid_entry(sorted@[i]@));
            }
            assert forall|k: (u64, Seq<char>)|
                #[trigger] self.ns().children.dom().contains(k) && k.0 == dir_id.0 implies (
            exists|i: int| 0 <= i < es.len() && (#[trigger] es[i]).name == k.1) by {
                let w = choose|w: int|
                    0 <= w < collected@.len() && (#[trigger] collected@[w])@.name == k.1;
                let j = choose|j: int|
                    #![auto]
                    0 <= j < sorted@.len() && sorted@[j]@.name == collected@[w]@.name;
                assert(es[j].name == k.1);
            }
            assert forall|i: int, j: int|
                #![trigger es[i], es[j]]
                0 <= i < j < es.len() implies lex_le(es[i].name, es[j].name) && es[i].name
                != es[j].name by {
                assert(lex_lt(sorted@[i]@.name, sorted@[j]@.name));
                lemma_lex_lt_asym(es[i].name, es[j].name);
                if es[i].name == es[j].name {
                    assert(lex_lt(es[i].name, es[i].name));
                }
            }
        }
        Ok(ReadDir { entries: sorted, pos: 0 })
    }
}

impl Vfs {
    /// Hand the backing store's bytes back, consuming the mount. What a
    /// later mount of these bytes rebuilds is exactly this namespace.
    pub fn into_store(self) -> (r: Vec<u8>)
        ensures
            r@ == self.store_bytes(),
    {
        self.store
    }

    /// Borrow the backing store's bytes, for persisting them.
    pub fn storage(&self) -> (r: &Vec<u8>)
        ensures
            r@ == self.store_bytes(),
    {
        &self.store
    }

    /// Create a file at a path and hand back a writable handle on it.
    pub fn create(&mut self, path: &str) -> (r: Result<crate::file_ops::VfsFile, VfsError>)
        requires
            old(self).wf(),
        ensures
            create_post(
                *old(self),
                path@,
                NodeKind::File,
                *final(self),
                match r {
                    Ok(f) => Ok(InodeId(old(self).next_id())),
                    Err(e) => Err(e),
                },
            ),
            r matches Ok(f) ==> f.inode().0 == old(self).next_id() && f.cursor() == 0
                && f.is_writable(),
    {
        match self.create_node(path, NodeKind::File) {
            Ok(id) => Ok(crate::file_ops::VfsFile::new(id, true)),
            Err(e) => Err(e),
        }
    }

    /// Open the file a path names, read-only.
    pub fn open_file(&self, path: &str) -> (r: Result<crate::file_ops::VfsFile, VfsError>)
        requires
            self.wf(),
        ensures
            match r {
                Ok(f) => {
                    let node = spec_resolve(self.ns(), self.root_id(), path@);
                    &&& node is Some
                    &&& self.ns().inodes.dom().contains(node.unwrap())
                    &&& self.ns().inodes[node.unwrap()].kind == NodeKind::File
                    &&& f.inode().0 == node.unwrap()
                    &&& f.cursor() == 0
                    &&& !f.is_writable()
                },
                Err(e) => {
                    let node = spec_resolve(self.ns(), self.root_id(), path@);
                    &&& match e {
                        VfsError::InvalidPath(_) => !valid_path(path@),
                        VfsError::NotFound(_) => valid_path(path@) && (node is None || (
                        node is Some && !self.ns().inodes.dom().contains(node.unwrap()))),
                        VfsError::NotAFile(_) => node is Some && self.ns().inodes.dom().contains(
                            node.unwrap(),
                        ) && self.ns().inodes[node.unwrap()].kind != NodeKind::File,
                        _ => false,
                    }
                },
            },
    {
        let inode = match self.path_to_inode(path) {
            Ok(id) => id,
            Err(e) => {
                return Err(e);
            },
        };
        let ix = match self.tables.find_inode(inode) {
            Some(i) => i,
            None => {
                return Err(VfsError::NotFound(path.to_owned()));
            },
        };
        match self.tables.inodes[ix].kind {
            NodeKind::File => Ok(crate::file_ops::VfsFile::new(inode, false)),
            NodeKind::Dir => Err(VfsError::NotAFile(path.to_owned())),
        }
    }

    /// Open the file a path names (an alias of `open_file`).
    pub fn open(&self, path: &str) -> (r: Result<crate::file_ops::VfsFile, VfsError>)
        requires
            self.wf(),
        ensures
            match r {
                Ok(f) => {
                    let node = spec_resolve(self.ns(), self.root_id(), path@);
                    &&& node is Some
                    &&& self.ns().inodes.dom().contains(node.unwrap())
                    &&& self.ns().inodes[node.unwrap()].kind == NodeKind::File
                    &&& f.inode().0 == node.unwrap()
                    &&& f.cursor() == 0
                    &&& !f.is_writable()
                },
                Err(e) => {
                    let node = spec_resolve(self.ns(), self.root_id(), path@);
                    &&& match e {
                        VfsError::InvalidPath(_) => !valid_path(path@),
                        VfsError::NotFound(_) => valid_path(path@) && (node is None || (
                        node is Some && !self.ns().inodes.dom().contains(node.unwrap()))),
                        VfsError::NotAFile(_) => node is Some && self.ns().inodes.dom().contains(
                            node.unwrap(),
                        ) && self.ns().inodes[node.unwrap()].kind != NodeKind::File,
                        _ => false,
                    }
                },
            },
    {
        self.open_file(path)
    }
}

// ---------------------------------------------------------------------
// The library's governing laws.
// ---------------------------------------------------------------------
/// On a log with no dark tail, the frame chain runs to the very end.
proof fn lemma_clean_chain_end(data: Seq<u8>, off: int)
    requires
        0 <= off,
        clean_from(data, off),
    ensures
        chain_end(data, off) == data.len(),
    decreases data.len() - off,
{
    lemma_parse_rec_bounds(data, off);
    match parse_frame(data, off) {
        ParseStep::Rec { rec, data_off, next } => {
            lemma_clean_chain_end(data, next);
        },
        _ => {},
    }
}

/// Replay equivalence: whatever operations produced a well-formed mount,
/// re-mounting its backing store succeeds, rebuilds exactly the same
/// inode table and child index, and keeps the very same backing bytes —
/// so every read of every file returns the same bytes as before.
pub proof fn lemma_replay_equivalence(v: Vfs, r: Result<Vfs, VfsError>)
    requires
        v.wf(),
        mount_post(v.store_bytes(), r),
    ensures
        r matches Ok(v2) && v2.wf() && v2.ns().inodes == v.ns().inodes && v2.ns().children
            == v.ns().children && v2.store_bytes() == v.store_bytes(),
{
    assert(v.store_bytes().len() >= 24);
    assert(header_bytes_ok(v.store_bytes()));
    assert(mount_state(v.store_bytes()) == Some(v.ns()));
    assert(v.ns().inodes.dom().contains(spec_header_root(v.store_bytes()).0));
    assert(!v.ns().inodes.dom().contains(u64::MAX));
    lemma_clean_chain_end(v.store_bytes(), 24);
    assert(v.store_bytes().take(chain_end(v.store_bytes(), 24)) =~= v.store_bytes());
}

/// Overwrite determinism: after a write, every byte the write covered
/// reads back as the written byte, and every other byte of the file
/// reads exactly as the earlier extents dictate — the newest writer
/// wins, byte for byte.
pub proof fn lemma_last_writer_wins(
    ns: NsState,
    store: Seq<u8>,
    store2: Seq<u8>,
    ino: u64,
    off: u64,
    data: Seq<u8>,
    t: Timestamp,
    p: int,
)
    requires
        ns.inodes.dom().contains(ino),
        data.len() + 45 + store.len() <= u64::MAX,
        store2 == store + spec_data_frame_bytes(InodeId(ino), off, data),
        off + data.len() <= u64::MAX,
    ensures
        ({
            let ns2 = write_effect(ns, ino, off, data.len() as u64, (store.len() + 45) as u64, t);
            &&& (off <= p < off + data.len() ==> extent_byte(ns2.inodes[ino].extents, store2, p)
                == data[p - off])
            &&& (!(off <= p < off + data.len()) ==> extent_byte(ns2.inodes[ino].extents, store2, p)
                == extent_byte(ns.inodes[ino].extents, store2, p))
        }),
{
    vstd::bytes::lemma_auto_spec_u64_to_from_le_bytes();
    vstd::bytes::lemma_auto_spec_u32_to_from_le_bytes();
    let ns2 = write_effect(ns, ino, off, data.len() as u64, (store.len() + 45) as u64, t);
    let es2 = ns2.inodes[ino].extents;
    let e = Extent {
        logical_offset: off,
        file_offset: (store.len() + 45) as u64,
        len: data.len() as u64,
    };
    assert(es2.last() == e);
    assert(es2.drop_last() =~= ns.inodes[ino].extents);
    let frame = spec_data_frame_bytes(InodeId(ino), off, data);
    assert(frame.len() == 45 + data.len());
    if off <= p < off + data.len() {
        let q = e.file_offset + (p - e.logical_offset);
        assert(q < store2.len());
        assert(store2[q] == frame[45 + (p - off)]);
        assert(frame[45 + (p - off)] == data[p - off]);
    }
}

// ---------------------------------------------------------------------
// Checkpointing: fold the live state into one summary record.
// ---------------------------------------------------------------------
/// The namespace is fully linked: every child entry names a live inode
/// whose own parent and name agree with the entry, and every parented
/// inode has its entry. States reached through this library's operations
/// are always linked; a crash between an allocation and its entry, made
/// durable by a mount, is the one way to leave an orphan behind.
pub open spec fn linked(ns: NsState) -> bool {
    &&& forall|k: (u64, Seq<char>)|
        #[trigger] ns.children.dom().contains(k) ==> {
            &&& ns.inodes.dom().contains(ns.children[k])
            &&& ns.inodes[ns.children[k]].parent == Some(InodeId(k.0))
            &&& ns.inodes[ns.children[k]].name == k.1
        }
    &&& forall|id: u64|
        #[trigger] ns.inodes.dom().contains(id) && ns.inodes[id].parent is Some ==> {
            &&& ns.children.dom().contains((ns.inodes[id].parent.unwrap().0, ns.inodes[id].name))
            &&& ns.children[(ns.inodes[id].parent.unwrap().0, ns.inodes[id].name)] == id
        }
}

/// On a linked namespace, the child index is exactly what a checkpoint
/// reload derives from the inode table.
proof fn lemma_linked_load(ns: NsState)
    requires
        linked(ns),
    ensures
        cp_dup_free(ns.inodes),
        children_of(ns.inodes) == ns.children,
{
    assert forall|i1: u64, i2: u64|
        #![trigger ns.inodes[i1], ns.inodes[i2]]
        ns.inodes.dom().contains(i1) && ns.inodes.dom().contains(i2) && i1 != i2
            && ns.inodes[i1].parent is Some && ns.inodes[i2].parent is Some implies !(
        ns.inodes[i1].parent == ns.inodes[i2].parent && ns.inodes[i1].name
            == ns.inodes[i2].name) by {
        if ns.inodes[i1].parent == ns.inodes[i2].parent && ns.inodes[i1].name
            == ns.inodes[i2].name {
            let k = (ns.inodes[i1].parent.unwrap().0, ns.inodes[i1].name);
            assert(ns.children[k] == i1);
            assert(ns.children[k] == i2);
        }
    }
    let derived = children_of(ns.inodes);
    assert forall|k: (u64, Seq<char>)| #![auto] true implies derived.dom().contains(k)
        == ns.children.dom().contains(k) && (ns.children.dom().contains(k) ==> derived[k]
        == ns.children[k]) by {
        if ns.children.dom().contains(k) {
            let c = ns.children[k];
            assert(ns.inodes.dom().contains(c) && ns.inodes[c].parent == Some(InodeId(k.0))
                && ns.inodes[c].name == k.1);
            assert(derived.dom().contains(k));
            let c2 = choose|id: u64|
                #![auto]
                ns.inodes.dom().contains(id) && ns.inodes[id].parent == Some(InodeId(k.0))
                    && ns.inodes[id].name == k.1;
            assert(ns.children[(ns.inodes[c2].parent.unwrap().0, ns.inodes[c2].name)] == c2);
            assert(derived[k] == ns.children[k]);
        }
        if derived.dom().contains(k) {
            let id = choose|id: u64|
                #![auto]
                ns.inodes.dom().contains(id) && ns.inodes[id].parent == Some(InodeId(k.0))
                    && ns.inodes[id].name == k.1;
            assert(ns.children.dom().contains((ns.inodes[id].parent.unwrap().0,
            ns.inodes[id].name)));
            assert(ns.children.dom().contains(k));
        }
    }
    assert(derived =~= ns.children);
}

/// A snapshot list that stands for an inode table: unique ids, every
/// snapshot in the table, every table entry present.
pub open spec fn snaps_represent(snaps: Seq<InodeView>, m: Map<u64, InodeView>) -> bool {
    &&& forall|i: int, j: int|
        #![trigger snaps[i], snaps[j]]
        0 <= i < j < snaps.len() ==> snaps[i].id.0 != snaps[j].id.0
    &&& forall|i: int|
        0 <= i < snaps.len() ==> m.dom().contains((#[trigger] snaps[i]).id.0) && m[snaps[i].id.0]
            == snaps[i]
    &&& forall|id: u64|
        #[trigger] m.dom().contains(id) ==> exists|i: int|
            0 <= i < snaps.len() && (#[trigger] snaps[i]).id.0 == id
}

/// A representing snapshot list rebuilds exactly its table.
proof fn lemma_snaps_map(snaps: Seq<InodeView>, m: Map<u64, InodeView>)
    requires
        snaps_represent(snaps, m),
    ensures
        cp_inodes_map(snaps) == m,
    decreases snaps.len(),
{
    if snaps.len() == 0 {
        assert(cp_inodes_map(snaps) =~= m);
    } else {
        let head = snaps.drop_last();
        let last = snaps.last();
        let m2 = m.remove(last.id.0);
        assert forall|id: u64| #[trigger] m2.dom().contains(id) implies exists|i: int|
            0 <= i < head.len() && (#[trigger] head[i]).id.0 == id by {
            let i = choose|i: int| 0 <= i < snaps.len() && (#[trigger] snaps[i]).id.0 == id;
            assert(i < snaps.len() - 1);
            assert(head[i].id.0 == id);
        }
        assert forall|i: int| 0 <= i < head.len() implies m2.dom().contains(
            (#[trigger] head[i]).id.0,
        ) && m2[head[i].id.0] == head[i] by {
            assert(snaps[i] == head[i]);
            assert(head[i].id.0 != last.id.0);
        }
        lemma_snaps_map(head, m2);
        assert(cp_inodes_map(snaps) == m2.insert(last.id.0, last));
        assert(m2.insert(last.id.0, last) =~= m);
    }
}

impl Vfs {
    /// Whether the in-memory namespace is fully linked.
    fn is_linked(&self) -> (r: bool)
        requires
            self.wf(),
        ensures
            r == linked(self.ns()),
    {
        // Every entry must name a live inode that agrees with it.
        let mut i: usize = 0;
        while i < self.tables.children.len()
            invariant
                self.wf(),
                i <= self.tables.children@.len(),
                forall|j: int|
                    0 <= j < i ==> {
                        let k = ((#[trigger] self.tables.children@[j]).parent.0,
                        self.tables.children@[j].name@);
                        &&& self.ns().inodes.dom().contains(self.ns().children[k])
                        &&& self.ns().inodes[self.ns().children[k]].parent == Some(InodeId(k.0))
                        &&& self.ns().inodes[self.ns().children[k]].name == k.1
                    },
            decreases self.tables.children@.len() - i,
        {
            let entry_parent = self.tables.children[i].parent;
            let entry_child = self.tables.children[i].child;
            let ok = match self.tables.find_inode(entry_child) {
                Some(ix) => {
                    let parent_matches = match self.tables.inodes[ix].parent {
                        Some(p) => p.0 == entry_parent.0,
                        None => false,
                    };
                    parent_matches && self.tables.inodes[ix].name == self.tables.children[i].name
                },
                None => false,
            };
            if !ok {
                proof {
                    let k = (self.tables.children@[i as int].parent.0,
                    self.tables.children@[i as int].name@);
                    assert(self.ns().children.dom().contains(k));
                    assert(!linked(self.ns()));
                }
                return false;
            }
            i = i + 1;
        }
        // Every parented inode must have its entry.
        let mut j: usize = 0;
        while j < self.tables.inodes.len()
            invariant
                self.wf(),
                j <= self.tables.inodes@.len(),
                forall|w: int|
                    0 <= w < self.tables.children@.len() ==> {
                        let k = ((#[trigger] self.tables.children@[w]).parent.0,
                        self.tables.children@[w].name@);
                        &&& self.ns().inodes.dom().contains(self.ns().children[k])
                        &&& self.ns().inodes[self.ns().children[k]].parent == Some(InodeId(k.0))
                        &&& self.ns().inodes[self.ns().children[k]].name == k.1
                    },
                forall|w: int|
                    0 <= w < j && (#[trigger] self.tables.inodes@[w])@.parent is Some ==> {
                        let node = self.tables.inodes@[w]@;
                        &&& self.ns().children.dom().contains((node.parent.unwrap().0, node.name))
                        &&& self.ns().children[(node.parent.unwrap().0, node.name)] == node.id.0
                    },
            decreases self.tables.inodes@.len() - j,
        {
            let parent_opt = self.tables.inodes[j].parent;
            if let Some(p) = parent_opt {
                let nm = copy_string(&self.tables.inodes[j].name);
                let id = self.tables.inodes[j].id;
                let ok = match self.tables.find_child(p, &nm) {
                    Some(cix) => self.tables.children[cix].child.0 == id.0,
                    None => false,
                };
                if !ok {
                    proof {
                        assert(self.ns().inodes.dom().contains(id.0));
                        assert(!linked(self.ns()));
                    }
                    return false;
                }
            }
            j = j + 1;
        }
        proof {
            assert forall|k: (u64, Seq<char>)|
                #[trigger] self.ns().children.dom().contains(k) implies {
                &&& self.ns().inodes.dom().contains(self.ns().children[k])
                &&& self.ns().inodes[self.ns().children[k]].parent == Some(InodeId(k.0))
                &&& self.ns().inodes[self.ns().children[k]].name == k.1
            } by {
                let w = choose|w: int|
                    0 <= w < self.tables.children@.len() && ((
                    #[trigger] self.tables.children@[w]).parent.0,
                    self.tables.children@[w].name@) == k;
            }
            assert forall|id: u64|
                #[trigger] self.ns().inodes.dom().contains(id)
                    && self.ns().inodes[id].parent is Some implies {
                &&& self.ns().children.dom().contains(
                    (self.ns().inodes[id].parent.unwrap().0, self.ns().inodes[id].name),
                )
                &&& self.ns().children[(self.ns().inodes[id].parent.unwrap().0,
                self.ns().inodes[id].name)] == id
            } by {
                let w = choose|w: int|
                    0 <= w < self.tables.inodes@.len() && (#[trigger] self.tables.inodes@[w])@.id.0
                        == id;
            }
        }
        true
    }

    /// Snapshot every inode of the table, ascending by id.
    #[verifier::rlimit(100)]
    #[verifier::spinoff_prover]
    fn snapshot_table(&self) -> (r: Vec<InodeSnapshot>)
        requires
            self.wf(),
        ensures
            snaps_represent(r@.map_values(|s: InodeSnapshot| s@), self.ns().inodes),
            forall|a: int, b: int|
                #![trigger r@[a], r@[b]]
                0 <= a < b < r@.len() ==> r@[a]@.id.0 < r@[b]@.id.0,
    {
        let ghost m = self.ns().inodes;
        let mut snaps: Vec<InodeSnapshot> = Vec::new();
        let mut i: usize = 0;
        while i < self.tables.inodes.len()
            invariant
                self.wf(),
                m == self.ns().inodes,
                i <= self.tables.inodes@.len(),
                forall|a: int|
                    0 <= a < snaps@.len() ==> m.dom().contains((#[trigger] snaps@[a])@.id.0)
                        && m[snaps@[a]@.id.0] == snaps@[a]@,
                forall|w: int|
                    #![trigger self.tables.inodes@[w]]
                    0 <= w < i ==> exists|a: int|
                        #![auto]
                        0 <= a < snaps@.len() && snaps@[a]@.id.0
                            == self.tables.inodes@[w]@.id.0,
                forall|a: int, b: int|
                    #![trigger snaps@[a], snaps@[b]]
                    0 <= a < b < snaps@.len() ==> snaps@[a]@.id.0 < snaps@[b]@.id.0,
            decreases self.tables.inodes@.len() - i,
        {
            let item = InodeSnapshot {
                id: self.tables.inodes[i].id,
                parent: self.tables.inodes[i].parent,
                name: copy_string(&self.tables.inodes[i].name),
                kind: self.tables.inodes[i].kind,
                metadata: self.tables.inodes[i].metadata,
                extents: copy_extents(&self.tables.inodes[i].extents),
            };
            proof {
                assert(item@ == self.tables.inodes@[i as int]@);
            }
            let mut p: usize = 0;
            while p < snaps.len() && snaps[p].id.0 < item.id.0
                invariant
                    p <= snaps@.len(),
                    forall|a: int| 0 <= a < p ==> (#[trigger] snaps@[a])@.id.0 < item@.id.0,
                decreases snaps@.len() - p,
            {
                p = p + 1;
            }
            if p < snaps.len() && snaps[p].id.0 == item.id.0 {
                // The id is already snapshotted; ids are unique, so this
                // never happens, but coverage holds either way.
                i = i + 1;
                continue ;
            }
            let ghost pre_snaps = snaps@;
            snaps.insert(p, item);
            proof {
                assert(snaps@ =~= pre_snaps.take(p as int) + seq![item] + pre_snaps.skip(
                    p as int,
                ));
                assert forall|a: int| 0 <= a < snaps@.len() implies (m.dom().contains(
                    (#[trigger] snaps@[a])@.id.0,
                ) && m[snaps@[a]@.id.0] == snaps@[a]@) && (a != p ==> snaps@[a]
                    == pre_snaps[if a < p {
                    a
                } else {
                    a - 1
                }]) by {
                    if a == p {
                        assert(snaps@[a]@ == self.tables.inodes@[i as int]@);
                    }
                }
                assert forall|w: int|
                    #![trigger self.tables.inodes@[w]]
                    0 <= w < i + 1 implies exists|a: int|
                    #![auto]
                    0 <= a < snaps@.len() && snaps@[a]@.id.0
                        == self.tables.inodes@[w]@.id.0 by {
                    if w == i {
                        assert(snaps@[p as int]@.id.0 == self.tables.inodes@[w]@.id.0);
                    } else {
                        let a0 = choose|a0: int|
                            #![auto]
                            0 <= a0 < pre_snaps.len() && pre_snaps[a0]@.id.0
                                == self.tables.inodes@[w]@.id.0;
                        if a0 < p {
                            assert(snaps@[a0]@.id.0 == self.tables.inodes@[w]@.id.0);
                        } else {
                            assert(snaps@[a0 + 1]@.id.0 == self.tables.inodes@[w]@.id.0);
                        }
                    }
                }
                assert forall|a: int, b: int|
                    #![trigger snaps@[a], snaps@[b]]
                    0 <= a < b < snaps@.len() implies snaps@[a]@.id.0 < snaps@[b]@.id.0 by {
                    if a == p {
                        assert(snaps@[b] == pre_snaps[b - 1]);
                    } else if b == p {
                        assert(snaps@[a] == pre_snaps[a]);
                    } else if a < p && b > p {
                        assert(snaps@[a] == pre_snaps[a]);
                        assert(snaps@[b] == pre_snaps[b - 1]);
                    }
                }
            }
            i = i + 1;
        }
        proof {
            let snapsv = snaps@.map_values(|s: InodeSnapshot| s@);
            assert forall|a: int, b: int|
                #![trigger snapsv[a], snapsv[b]]
                0 <= a < b < snapsv.len() implies snapsv[a].id.0 != snapsv[b].id.0 by {
                assert(snaps@[a]@.id.0 < snaps@[b]@.id.0);
            }
            assert forall|a: int| 0 <= a < snapsv.len() implies m.dom().contains(
                (#[trigger] snapsv[a]).id.0,
            ) && m[snapsv[a].id.0] == snapsv[a] by {
                assert(snapsv[a] == snaps@[a]@);
            }
            assert forall|id: u64| #[trigger] m.dom().contains(id) implies exists|a: int|
                0 <= a < snapsv.len() && (#[trigger] snapsv[a]).id.0 == id by {
                let w = choose|w: int|
                    0 <= w < self.tables.inodes@.len() && (#[trigger] self.tables.inodes@[w])@.id.0
                        == id;
                let a = choose|a: int|
                    #![auto]
                    0 <= a < snaps@.len() && snaps@[a]@.id.0 == self.tables.inodes@[w]@.id.0;
                assert(snapsv[a].id.0 == id);
            }
        }
        snaps
    }

    /// Fold the live inode table into one checkpoint record and append
    /// it, so later mounts skip the history before it. The in-memory
    /// state does not change. A namespace holding detached inodes (left
    /// behind by removals, or by mounting a store that crashed between
    /// an allocation and its entry) cannot be summarised faithfully and
    /// is refused.
    #[verifier::rlimit(100)]
    #[verifier::spinoff_prover]
    pub fn checkpoint(&mut self) -> (r: Result<(), VfsError>)
        requires
            old(self).wf(),
        ensures
            final(self).wf(),
            final(self).ns() == old(self).ns(),
            final(self).root_id() == old(self).root_id(),
            final(self).next_id() == old(self).next_id(),
            match r {
                Ok(()) => {
                    &&& linked(old(self).ns())
                    &&& mount_state(final(self).store_bytes()) == Some(old(self).ns())
                    &&& exists|cp: CheckpointView|
                        {
                            &&& final(self).store_bytes() == old(self).store_bytes()
                                + #[trigger] spec_frame_bytes(RecordView::Checkpoint(cp))
                            &&& load_checkpoint(cp) == Some(old(self).ns())
                        }
                },
                Err(e) => {
                    &&& final(self).store_bytes() == old(self).store_bytes()
                    &&& match e {
                        VfsError::CorruptLog(_) => !linked(old(self).ns()),
                        VfsError::Io(_) => linked(old(self).ns()),
                        _ => false,
                    }
                },
            },
    {
        if !self.is_linked() {
            return Err(VfsError::CorruptLog("namespace is not fully linked".to_owned()));
        }
        let snaps = self.snapshot_table();
        let snap_count = snaps.len();
        let cp = Checkpoint { next_inode: self.next_inode, free_extents: Vec::new(), inodes: snaps };
        let rec = Record::Checkpoint(cp);
        proof {
            let cpv = rec@->Checkpoint_0;
            let m = self.ns().inodes;
            assert(cpv.inodes.len() == snap_count);
            assert(snaps_represent(cpv.inodes, m));
            lemma_snaps_map(cpv.inodes, m);
            lemma_linked_load(self.ns());
            assert(load_checkpoint(cpv) == Some(self.ns()));
        }
        let payload = match crate::no_sql::encode_record_payload(&rec) {
            Ok(p) => p,
            Err(_) => {
                proof {
                    assert(false);
                }
                return Err(VfsError::CorruptLog("unreachable".to_owned()));
            },
        };
        let payload_len = payload.len();
        let store_len = self.store.len();
        if (payload_len as u128) + 16 > (u64::MAX as u128) - (store_len as u128) {
            return Err(VfsError::Io("backing store is full".to_owned()));
        }
        let ghost pre = self.store@;
        let ghost frame = spec_frame_bytes(rec@);
        proof {
            vstd::bytes::lemma_auto_spec_u64_to_from_le_bytes();
            vstd::bytes::lemma_auto_spec_u32_to_from_le_bytes();
            assert(spec_u64_to_le_bytes((payload@.len() + 4) as u64).len() == 8);
            assert(frame.len() == payload@.len() + 16);
            assert(record_encodable(rec@)) by {
                let cpv = rec@->Checkpoint_0;
                let m = self.ns().inodes;
                assert(spec_record_body(rec@).len() + 17 <= u64::MAX);
                assert(cpv.free_extents.len() == 0);
                assert(cpv.inodes.len() == snap_count);
                assert forall|a: int| 0 <= a < cpv.inodes.len() implies snapshot_encodable(
                    #[trigger] cpv.inodes[a],
                ) by {
                    let w = choose|w: int|
                        0 <= w < self.tables.inodes@.len() && (
                        #[trigger] self.tables.inodes@[w])@.id.0 == cpv.inodes[a].id.0;
                    assert(m[cpv.inodes[a].id.0] == self.tables.inodes@[w]@);
                    assert(cpv.inodes[a] == self.tables.inodes@[w]@);
                }
            }
        }
        let _off = match write_record(&mut self.store, &rec) {
            Ok(o) => o,
            Err(_) => {
                proof {
                    assert(false);
                }
                return Err(VfsError::CorruptLog("unreachable".to_owned()));
            },
        };
        proof {
            assert(self.store@ == pre + frame);
            assert(self.store@.subrange(pre.len() as int, pre.len() + frame.len() as int)
                =~= frame);
            lemma_parse_frame_at(self.store@, pre.len() as int, rec@);
            lemma_mount_append(pre, frame);
            assert(self.store@.subrange(0, 8) =~= pre.subrange(0, 8));
            assert(self.store@.subrange(8, 12) =~= pre.subrange(8, 12));
            assert(self.store@.subrange(16, 24) =~= pre.subrange(16, 24));
            assert(mount_state(self.store@) == Some(self.ns()));
        }
        Ok(())
    }
}

/// Write-then-read-back, through the public contracts alone: after a
/// committed write, every byte the write covered reads back as the
/// written byte, and every byte outside it reads as the earlier extents
/// dictate.
pub proof fn lemma_write_read_back(
    pre_ns: NsState,
    pre_store: Seq<u8>,
    post_ns: NsState,
    post_store: Seq<u8>,
    ino: u64,
    off: u64,
    data: Seq<u8>,
    p: int,
)
    requires
        pre_ns.inodes.dom().contains(ino),
        write_committed(pre_ns, pre_store, post_ns, post_store, ino, off, data),
        pre_store.len() + 45 + data.len() <= u64::MAX,
        off + data.len() <= u64::MAX,
    ensures
        off <= p < off + data.len() ==> extent_byte(post_ns.inodes[ino].extents, post_store, p)
            == data[p - off],
        !(off <= p < off + data.len()) ==> extent_byte(post_ns.inodes[ino].extents, post_store, p)
            == extent_byte(pre_ns.inodes[ino].extents, post_store, p),
{
    vstd::bytes::lemma_auto_spec_u64_to_from_le_bytes();
    vstd::bytes::lemma_auto_spec_u32_to_from_le_bytes();
    let t = choose|t: Timestamp|
        {
            &&& post_ns == #[trigger] write_effect(
                pre_ns,
                ino,
                off,
                data.len() as u64,
                (pre_store.len() + 45) as u64,
                t,
            )
            &&& post_store == pre_store + spec_data_frame_bytes(InodeId(ino), off, data)
                + spec_frame_bytes(
                RecordView::SetTimes { inode: InodeId(ino), created_at: None, modified_at: Some(t) },
            )
        };
    let es2 = post_ns.inodes[ino].extents;
    let e = Extent {
        logical_offset: off,
        file_offset: (pre_store.len() + 45) as u64,
        len: data.len() as u64,
    };
    assert(es2.last() == e);
    assert(es2.drop_last() =~= pre_ns.inodes[ino].extents);
    let frame = spec_data_frame_bytes(InodeId(ino), off, data);
    assert(frame.len() == 45 + data.len());
    if off <= p < off + data.len() {
        let q = e.file_offset + (p - e.logical_offset);
        assert(q < post_store.len());
        assert(post_store[q] == frame[45 + (p - off)]);
        assert(frame[45 + (p - off)] == data[p - off]);
    }
}

/// Writing a checkpoint and mounting reaches the same namespace as
/// mounting without it: the checkpoint operation leaves the in-memory
/// state untouched and keeps the store mounting to that very state, so
/// any number of consecutive checkpoints leaves the mounted state
/// unchanged.
pub proof fn lemma_checkpoint_idempotent(pre: Vfs, post: Vfs)
    requires
        pre.wf(),
        post.wf(),
        post.ns() == pre.ns(),
    ensures
        mount_state(post.store_bytes()) == mount_state(pre.store_bytes()),
{
}

} // verus!
