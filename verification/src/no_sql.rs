//! Byte-level codec and record framing for the append-only log.
//!
//! Every multi-byte integer is little-endian. Records travel in frames:
//! a 4-byte magic, a `u64` frame length, the tagged payload, and a CRC-32
//! trailer. The data-carrying record (tag 3) embeds its data bytes after
//! the CRC so that replay can map extents without reading them.

use vstd::bytes::*;
use vstd::prelude::*;
use vstd::slice::{slice_index_get, slice_subrange, slice_to_vec};
use vstd::utf8::{decode_utf8, encode_utf8, encode_utf8_decode_utf8, valid_utf8};

use crate::structs::{
    Checkpoint, CheckpointView, DirEntry, DirEntryView, Extent, Header, InodeId, InodeSnapshot,
    InodeView, Metadata, NodeKind, Record, RecordView, Timestamp, VfsError,
};

verus! {

/// First byte of the per-record frame magic `VFSR`.
pub const RECORD_MAGIC_0: u8 = 86;

/// Second byte of the per-record frame magic `VFSR`.
pub const RECORD_MAGIC_1: u8 = 70;

/// Third byte of the per-record frame magic `VFSR`.
pub const RECORD_MAGIC_2: u8 = 83;

/// Fourth byte of the per-record frame magic `VFSR`.
pub const RECORD_MAGIC_3: u8 = 82;

/// Each of the eight header magic bytes.
pub const HEADER_MAGIC_BYTE: u8 = 0x43;

/// On-disk format version; the only supported value.
pub const VERSION: u32 = 1;

/// Length of the persisted header block at offset 0.
pub const HEADER_LEN: u64 = 24;

/// The four record-frame magic bytes as a sequence.
pub open spec fn spec_record_magic() -> Seq<u8> {
    seq![RECORD_MAGIC_0, RECORD_MAGIC_1, RECORD_MAGIC_2, RECORD_MAGIC_3]
}

/// The eight header magic bytes as a sequence.
pub open spec fn spec_header_magic() -> Seq<u8> {
    seq![
        HEADER_MAGIC_BYTE,
        HEADER_MAGIC_BYTE,
        HEADER_MAGIC_BYTE,
        HEADER_MAGIC_BYTE,
        HEADER_MAGIC_BYTE,
        HEADER_MAGIC_BYTE,
        HEADER_MAGIC_BYTE,
        HEADER_MAGIC_BYTE,
    ]
}

/// The IEEE CRC-32 of a byte sequence, as computed by `crc32fast`.
pub uninterp spec fn crc32_of(data: Seq<u8>) -> u32;

/// Relies on `crc32fast::hash`: the IEEE CRC-32 (polynomial 0xEDB88320)
/// of the given bytes, a function of the bytes alone.
#[verifier::external_body]
pub fn crc32(data: &[u8]) -> (r: u32)
    ensures
        r == crc32_of(data@),
{
    crc32fast::hash(data)
}

// ---------------------------------------------------------------------
// Little-endian encodings of the primitive values.
// ---------------------------------------------------------------------
/// Little-endian bytes of a signed 128-bit integer (two's complement).
pub open spec fn spec_i128_to_le_bytes(x: i128) -> Seq<u8> {
    spec_u128_to_le_bytes(x as u128)
}

/// The signed 128-bit integer encoded by 16 little-endian bytes.
pub open spec fn spec_i128_from_le_bytes(s: Seq<u8>) -> i128 {
    spec_u128_from_le_bytes(s) as i128
}

/// Round trip of the signed 128-bit encoding.
pub proof fn lemma_i128_le_bytes_roundtrip(x: i128)
    ensures
        spec_i128_to_le_bytes(x).len() == 16,
        spec_i128_from_le_bytes(spec_i128_to_le_bytes(x)) == x,
{
    let u = x as u128;
    lemma_auto_spec_u128_to_from_le_bytes();
    assert(spec_u128_to_le_bytes(u).len() == 16);
    assert(spec_u128_from_le_bytes(spec_u128_to_le_bytes(u)) == u);
    assert(((x as u128) as i128) == x) by (bit_vector);
}

// ---------------------------------------------------------------------
// Byte encodings of the compound values that records carry.
// ---------------------------------------------------------------------
/// Encoding of an optional inode id: tag byte 0, or 1 followed by the id.
pub open spec fn spec_opt_id_bytes(p: Option<InodeId>) -> Seq<u8> {
    match p {
        None => seq![0u8],
        Some(id) => seq![1u8] + spec_u64_to_le_bytes(id.0),
    }
}

/// Encoding of an optional timestamp: tag byte 0, or 1 followed by the value.
pub open spec fn spec_opt_ts_bytes(t: Option<Timestamp>) -> Seq<u8> {
    match t {
        None => seq![0u8],
        Some(v) => seq![1u8] + spec_i128_to_le_bytes(v.0),
    }
}

/// The tag byte of a node kind: 1 for a file, 2 for a directory.
pub open spec fn spec_kind_byte(k: NodeKind) -> u8 {
    match k {
        NodeKind::File => 1u8,
        NodeKind::Dir => 2u8,
    }
}

/// Length-prefixed encoding of a string: `u64` byte length, then UTF-8 bytes.
pub open spec fn spec_string_bytes(name: Seq<char>) -> Seq<u8> {
    spec_u64_to_le_bytes(encode_utf8(name).len() as u64) + encode_utf8(name)
}

/// Encoding of one extent: three `u64` fields.
pub open spec fn spec_extent_bytes(e: Extent) -> Seq<u8> {
    spec_u64_to_le_bytes(e.logical_offset) + spec_u64_to_le_bytes(e.file_offset)
        + spec_u64_to_le_bytes(e.len)
}

/// Concatenated encodings of a list of extents, in order.
pub open spec fn spec_extent_items_bytes(es: Seq<Extent>) -> Seq<u8>
    decreases es.len(),
{
    if es.len() == 0 {
        seq![]
    } else {
        spec_extent_items_bytes(es.drop_last()) + spec_extent_bytes(es.last())
    }
}

/// Count-prefixed encoding of an extent list.
pub open spec fn spec_extent_list_bytes(es: Seq<Extent>) -> Seq<u8> {
    spec_u64_to_le_bytes(es.len() as u64) + spec_extent_items_bytes(es)
}

/// Encoding of an inode snapshot, as carried by `InodeAlloc` and checkpoints.
pub open spec fn spec_inode_snapshot_bytes(s: InodeView) -> Seq<u8> {
    spec_u64_to_le_bytes(s.id.0) + spec_opt_id_bytes(s.parent) + spec_string_bytes(s.name)
        + seq![spec_kind_byte(s.kind)] + spec_u64_to_le_bytes(s.metadata.size)
        + spec_i128_to_le_bytes(s.metadata.created_at.0)
        + spec_i128_to_le_bytes(s.metadata.modified_at.0) + spec_extent_list_bytes(s.extents)
}

/// Encoding of a directory entry, as carried by `DirEntryAdd`.
pub open spec fn spec_dir_entry_bytes(e: DirEntryView) -> Seq<u8> {
    spec_u64_to_le_bytes(e.parent.0) + spec_u64_to_le_bytes(e.inode.0)
        + spec_string_bytes(e.name) + seq![spec_kind_byte(e.kind)]
}

/// Concatenated encodings of a list of inode snapshots, in order.
pub open spec fn spec_snapshot_items_bytes(ss: Seq<InodeView>) -> Seq<u8>
    decreases ss.len(),
{
    if ss.len() == 0 {
        seq![]
    } else {
        spec_snapshot_items_bytes(ss.drop_last()) + spec_inode_snapshot_bytes(ss.last())
    }
}

/// Encoding of a checkpoint body: next id, extent free list, snapshot list.
pub open spec fn spec_checkpoint_bytes(cp: CheckpointView) -> Seq<u8> {
    spec_u64_to_le_bytes(cp.next_inode.0) + spec_extent_list_bytes(cp.free_extents)
        + spec_u64_to_le_bytes(cp.inodes.len() as u64) + spec_snapshot_items_bytes(cp.inodes)
}

// ---------------------------------------------------------------------
// Spec-level decoding: partial functions over a byte sequence and a
// cursor position. `None` means the bytes do not decode.
// ---------------------------------------------------------------------
/// Decode one byte.
pub open spec fn dec_u8(b: Seq<u8>, p: int) -> Option<(u8, int)> {
    if 0 <= p && p + 1 <= b.len() {
        Some((b[p], p + 1))
    } else {
        None
    }
}

/// Decode a little-endian `u32`.
pub open spec fn dec_u32(b: Seq<u8>, p: int) -> Option<(u32, int)> {
    if 0 <= p && p + 4 <= b.len() {
        Some((spec_u32_from_le_bytes(b.subrange(p, p + 4)), p + 4))
    } else {
        None
    }
}

/// Decode a little-endian `u64`.
pub open spec fn dec_u64(b: Seq<u8>, p: int) -> Option<(u64, int)> {
    if 0 <= p && p + 8 <= b.len() {
        Some((spec_u64_from_le_bytes(b.subrange(p, p + 8)), p + 8))
    } else {
        None
    }
}

/// Decode a little-endian `i128`.
pub open spec fn dec_i128(b: Seq<u8>, p: int) -> Option<(i128, int)> {
    if 0 <= p && p + 16 <= b.len() {
        Some((spec_i128_from_le_bytes(b.subrange(p, p + 16)), p + 16))
    } else {
        None
    }
}

/// Decode a length-prefixed run of bytes.
pub open spec fn dec_bytes(b: Seq<u8>, p: int) -> Option<(Seq<u8>, int)> {
    match dec_u64(b, p) {
        Some((n, q)) => if q + n <= b.len() {
            Some((b.subrange(q, q + n as int), q + n as int))
        } else {
            None
        },
        None => None,
    }
}

/// Decode a length-prefixed string; the bytes must be valid UTF-8.
pub open spec fn dec_string(b: Seq<u8>, p: int) -> Option<(Seq<char>, int)> {
    match dec_bytes(b, p) {
        Some((bs, q)) => if valid_utf8(bs) {
            Some((decode_utf8(bs), q))
        } else {
            None
        },
        None => None,
    }
}

/// Decode an optional inode id (tag byte 0 or 1).
pub open spec fn dec_opt_id(b: Seq<u8>, p: int) -> Option<(Option<InodeId>, int)> {
    match dec_u8(b, p) {
        Some((t, q)) => if t == 0 {
            Some((None, q))
        } else if t == 1 {
            match dec_u64(b, q) {
                Some((v, r)) => Some((Some(InodeId(v)), r)),
                None => None,
            }
        } else {
            None
        },
        None => None,
    }
}

/// Decode an optional timestamp (tag byte 0 or 1).
pub open spec fn dec_opt_ts(b: Seq<u8>, p: int) -> Option<(Option<Timestamp>, int)> {
    match dec_u8(b, p) {
        Some((t, q)) => if t == 0 {
            Some((None, q))
        } else if t == 1 {
            match dec_i128(b, q) {
                Some((v, r)) => Some((Some(Timestamp(v)), r)),
                None => None,
            }
        } else {
            None
        },
        None => None,
    }
}

/// Decode a node kind (byte 1 or 2).
pub open spec fn dec_kind(b: Seq<u8>, p: int) -> Option<(NodeKind, int)> {
    match dec_u8(b, p) {
        Some((t, q)) => if t == 1 {
            Some((NodeKind::File, q))
        } else if t == 2 {
            Some((NodeKind::Dir, q))
        } else {
            None
        },
        None => None,
    }
}

/// Decode one extent: three `u64` fields.
pub open spec fn dec_extent(b: Seq<u8>, p: int) -> Option<(Extent, int)> {
    match dec_u64(b, p) {
        Some((lo, q1)) => match dec_u64(b, q1) {
            Some((fo, q2)) => match dec_u64(b, q2) {
                Some((ln, q3)) => Some((Extent { logical_offset: lo, file_offset: fo, len: ln }, q3)),
                None => None,
            },
            None => None,
        },
        None => None,
    }
}

/// Decode `n` consecutive extents.
pub open spec fn dec_extents(b: Seq<u8>, p: int, n: int) -> Option<(Seq<Extent>, int)>
    decreases n,
{
    if n <= 0 {
        Some((Seq::<Extent>::empty(), p))
    } else {
        match dec_extent(b, p) {
            Some((e, q)) => match dec_extents(b, q, n - 1) {
                Some((es, r)) => Some((seq![e] + es, r)),
                None => None,
            },
            None => None,
        }
    }
}

/// Decode a count-prefixed extent list.
pub open spec fn dec_extent_list(b: Seq<u8>, p: int) -> Option<(Seq<Extent>, int)> {
    match dec_u64(b, p) {
        Some((n, q)) => dec_extents(b, q, n as int),
        None => None,
    }
}

/// Decode an inode snapshot.
pub open spec fn dec_inode_snapshot(b: Seq<u8>, p: int) -> Option<(InodeView, int)> {
    match dec_u64(b, p) {
        Some((id, q1)) => match dec_opt_id(b, q1) {
            Some((parent, q2)) => match dec_string(b, q2) {
                Some((name, q3)) => match dec_kind(b, q3) {
                    Some((kind, q4)) => match dec_u64(b, q4) {
                        Some((size, q5)) => match dec_i128(b, q5) {
                            Some((created, q6)) => match dec_i128(b, q6) {
                                Some((modified, q7)) => match dec_extent_list(b, q7) {
                                    Some((extents, q8)) => Some(
                                        (
                                            InodeView {
                                                id: InodeId(id),
                                                parent,
                                                name,
                                                kind,
                                                metadata: Metadata {
                                                    size,
                                                    created_at: Timestamp(created),
                                                    modified_at: Timestamp(modified),
                                                },
                                                extents,
                                            },
                                            q8,
                                        ),
                                    ),
                                    None => None,
                                },
                                None => None,
                            },
                            None => None,
                        },
                        None => None,
                    },
                    None => None,
                },
                None => None,
            },
            None => None,
        },
        None => None,
    }
}

/// Decode a directory entry.
pub open spec fn dec_dir_entry(b: Seq<u8>, p: int) -> Option<(DirEntryView, int)> {
    match dec_u64(b, p) {
        Some((parent, q1)) => match dec_u64(b, q1) {
            Some((inode, q2)) => match dec_string(b, q2) {
                Some((name, q3)) => match dec_kind(b, q3) {
                    Some((kind, q4)) => Some(
                        (
                            DirEntryView {
                                parent: InodeId(parent),
                                inode: InodeId(inode),
                                name,
                                kind,
                            },
                            q4,
                        ),
                    ),
                    None => None,
                },
                None => None,
            },
            None => None,
        },
        None => None,
    }
}

/// Decode `n` consecutive inode snapshots.
pub open spec fn dec_snapshots(b: Seq<u8>, p: int, n: int) -> Option<(Seq<InodeView>, int)>
    decreases n,
{
    if n <= 0 {
        Some((Seq::<InodeView>::empty(), p))
    } else {
        match dec_inode_snapshot(b, p) {
            Some((s, q)) => match dec_snapshots(b, q, n - 1) {
                Some((ss, r)) => Some((seq![s] + ss, r)),
                None => None,
            },
            None => None,
        }
    }
}

/// Decode a checkpoint body.
pub open spec fn dec_checkpoint(b: Seq<u8>, p: int) -> Option<(CheckpointView, int)> {
    match dec_u64(b, p) {
        Some((next, q1)) => match dec_extent_list(b, q1) {
            Some((frees, q2)) => match dec_u64(b, q2) {
                Some((n, q3)) => match dec_snapshots(b, q3, n as int) {
                    Some((ss, q4)) => Some(
                        (
                            CheckpointView {
                                next_inode: InodeId(next),
                                free_extents: frees,
                                inodes: ss,
                            },
                            q4,
                        ),
                    ),
                    None => None,
                },
                None => None,
            },
            None => None,
        },
        None => None,
    }
}

// ---------------------------------------------------------------------
// Decoder: a bounds-checked cursor over a byte slice.
// ---------------------------------------------------------------------
/// Little-endian decoder over a borrowed byte buffer, advancing a cursor
/// that is checked against the buffer length.
pub struct Decoder<'a> {
    input: &'a [u8],
    poz: usize,
}

impl<'a> Decoder<'a> {
    /// The bytes being decoded.
    pub closed spec fn bytes(&self) -> Seq<u8> {
        self.input@
    }

    /// The cursor position.
    pub closed spec fn pos(&self) -> int {
        self.poz as int
    }

    /// A fresh decoder positioned at the start of the input.
    pub fn new(input: &'a [u8]) -> (r: Decoder<'a>)
        ensures
            r.bytes() == input@,
            r.pos() == 0,
    {
        Decoder { input, poz: 0 }
    }

    /// Take the next `n` bytes and advance, or fail without moving.
    fn take(&mut self, n: usize) -> (r: Result<&'a [u8], VfsError>)
        ensures
            old(self).pos() + n <= old(self).bytes().len() ==> {
                &&& r is Ok
                &&& r.unwrap()@ == old(self).bytes().subrange(
                    old(self).pos(),
                    old(self).pos() + n,
                )
                &&& final(self).bytes() == old(self).bytes()
                &&& final(self).pos() == old(self).pos() + n
            },
            old(self).pos() + n > old(self).bytes().len() ==> {
                &&& r is Err
                &&& r.unwrap_err() is CorruptLog
                &&& *final(self) == *old(self)
            },
    {
        let buf_len = self.input.len();
        let end = match self.poz.checked_add(n) {
            Some(e) => e,
            None => {
                return Err(VfsError::CorruptLog("decoder position overflow".to_owned()));
            },
        };
        if end > buf_len {
            return Err(VfsError::CorruptLog("unexpected EOF while decoding".to_owned()));
        }
        let out = slice_subrange(self.input, self.poz, end);
        self.poz = end;
        Ok(out)
    }

    /// Decode one byte.
    pub fn get_u8(&mut self) -> (r: Result<u8, VfsError>)
        ensures
            decoder_post::<u8>(
                old(self).bytes(),
                final(self).bytes(),
                final(self).pos(),
                dec_u8(old(self).bytes(), old(self).pos()),
                r,
            ),
    {
        let b = self.take(1)?;
        Ok(*slice_index_get(b, 0))
    }

    /// Decode a little-endian `u32`.
    pub fn get_u32(&mut self) -> (r: Result<u32, VfsError>)
        ensures
            decoder_post::<u32>(
                old(self).bytes(),
                final(self).bytes(),
                final(self).pos(),
                dec_u32(old(self).bytes(), old(self).pos()),
                r,
            ),
    {
        let b = self.take(4)?;
        Ok(u32_from_le_bytes(b))
    }

    /// Decode a little-endian `u64`.
    pub fn get_u64(&mut self) -> (r: Result<u64, VfsError>)
        ensures
            decoder_post::<u64>(
                old(self).bytes(),
                final(self).bytes(),
                final(self).pos(),
                dec_u64(old(self).bytes(), old(self).pos()),
                r,
            ),
    {
        let b = self.take(8)?;
        Ok(u64_from_le_bytes(b))
    }

    /// Decode a little-endian `i128`.
    pub fn get_i128(&mut self) -> (r: Result<i128, VfsError>)
        ensures
            decoder_post::<i128>(
                old(self).bytes(),
                final(self).bytes(),
                final(self).pos(),
                dec_i128(old(self).bytes(), old(self).pos()),
                r,
            ),
    {
        let b = self.take(16)?;
        Ok(u128_from_le_bytes(b) as i128)
    }

    /// Decode a length-prefixed run of bytes.
    pub fn get_bytes(&mut self) -> (r: Result<&'a [u8], VfsError>)
        ensures
            match dec_bytes(old(self).bytes(), old(self).pos()) {
                Some((v, q)) => {
                    &&& r is Ok
                    &&& r.unwrap()@ == v
                    &&& final(self).bytes() == old(self).bytes()
                    &&& final(self).pos() == q
                },
                None => r is Err && r.unwrap_err() is CorruptLog,
            },
            final(self).bytes() == old(self).bytes(),
    {
        let len = self.get_u64()?;
        let buf_len = self.input.len();
        if len > buf_len as u64 {
            // Such a length always overruns the buffer.
            return Err(VfsError::CorruptLog("unexpected EOF while decoding".to_owned()));
        }
        self.take(len as usize)
    }

    /// Decode a length-prefixed UTF-8 string.
    pub fn get_string(&mut self) -> (r: Result<String, VfsError>)
        ensures
            match dec_string(old(self).bytes(), old(self).pos()) {
                Some((v, q)) => {
                    &&& r is Ok
                    &&& r.unwrap()@ == v
                    &&& final(self).bytes() == old(self).bytes()
                    &&& final(self).pos() == q
                },
                None => r is Err && r.unwrap_err() is CorruptLog,
            },
            final(self).bytes() == old(self).bytes(),
    {
        let b = self.get_bytes()?;
        let bv = slice_to_vec(b);
        match string_from_utf8(bv) {
            Some(s) => {
                proof {
                    encode_utf8_decode_utf8(s@);
                }
                Ok(s)
            },
            None => Err(VfsError::CorruptLog("invalid utf-8 string in snapshot".to_owned())),
        }
    }

    /// Whether the cursor has consumed the whole buffer.
    pub fn is_eof(&self) -> (r: bool)
        ensures
            r == (self.pos() == self.bytes().len()),
    {
        self.poz == self.input.len()
    }
}

/// Common postcondition shape of the fixed-width decoder methods: the
/// result and final cursor agree with the spec-level decode outcome.
pub open spec fn decoder_post<T>(
    pre_bytes: Seq<u8>,
    post_bytes: Seq<u8>,
    post_pos: int,
    dec: Option<(T, int)>,
    r: Result<T, VfsError>,
) -> bool {
    match dec {
        Some((v, q)) => {
            &&& r is Ok
            &&& r.unwrap() == v
            &&& post_bytes == pre_bytes
            &&& post_pos == q
        },
        None => {
            &&& r matches Err(e) && e is CorruptLog
            &&& post_bytes == pre_bytes
        },
    }
}

/// Relies on `String::from_utf8` (its result converted to an `Option`):
/// it succeeds exactly on valid UTF-8 input, and the returned string is
/// the one whose UTF-8 encoding is the input bytes.
#[verifier::external_body]
fn string_from_utf8(bytes: Vec<u8>) -> (r: Option<String>)
    ensures
        r is Some <==> valid_utf8(bytes@),
        r is Some ==> encode_utf8(r.unwrap()@) == bytes@,
{
    String::from_utf8(bytes).ok()
}

// ---------------------------------------------------------------------
// Encoder: an append-only byte buffer.
// ---------------------------------------------------------------------
/// Little-endian encoder over a growable byte buffer.
pub struct Encoder {
    buf: Vec<u8>,
}

impl View for Encoder {
    type V = Seq<u8>;

    closed spec fn view(&self) -> Seq<u8> {
        self.buf@
    }
}

impl Encoder {
    /// A fresh encoder with an empty buffer.
    pub fn new() -> (r: Encoder)
        ensures
            r@ == Seq::<u8>::empty(),
    {
        Encoder { buf: Vec::new() }
    }

    /// Hand back the accumulated bytes.
    pub fn into_inner(self) -> (r: Vec<u8>)
        ensures
            r@ == self@,
    {
        self.buf
    }

    /// Append one byte.
    pub fn put_u8(&mut self, v: u8)
        ensures
            final(self)@ == old(self)@.push(v),
    {
        self.buf.push(v);
    }

    /// Append a `u32`, little endian.
    pub fn put_u32(&mut self, v: u32)
        ensures
            final(self)@ == old(self)@ + spec_u32_to_le_bytes(v),
    {
        let mut b = u32_to_le_bytes(v);
        self.buf.append(&mut b);
    }

    /// Append a `u64`, little endian.
    pub fn put_u64(&mut self, v: u64)
        ensures
            final(self)@ == old(self)@ + spec_u64_to_le_bytes(v),
    {
        let mut b = u64_to_le_bytes(v);
        self.buf.append(&mut b);
    }

    /// Append an `i128`, little endian, two's complement.
    pub fn put_i128(&mut self, v: i128)
        ensures
            final(self)@ == old(self)@ + spec_i128_to_le_bytes(v),
    {
        let mut b = u128_to_le_bytes(v as u128);
        self.buf.append(&mut b);
    }

    /// Append a length-prefixed run of bytes: `u64` length, then the bytes.
    pub fn put_bytes(&mut self, bytes: &[u8])
        ensures
            final(self)@ == old(self)@ + spec_u64_to_le_bytes(bytes@.len() as u64) + bytes@,
    {
        self.put_u64(bytes.len() as u64);
        let mut b = slice_to_vec(bytes);
        self.buf.append(&mut b);
    }

    /// Append bytes as they are, with no length prefix.
    pub fn put_raw(&mut self, bytes: &Vec<u8>)
        ensures
            final(self)@ == old(self)@ + bytes@,
    {
        let mut b = slice_to_vec(bytes.as_slice());
        self.buf.append(&mut b);
    }

    /// Append a length-prefixed string: `u64` UTF-8 byte length, then the bytes.
    pub fn put_string(&mut self, s: &str)
        ensures
            final(self)@ == old(self)@ + spec_string_bytes(s@),
    {
        self.put_bytes(s.as_bytes());
    }
}

// ---------------------------------------------------------------------
// Executable encoding and decoding of the record bodies.
// ---------------------------------------------------------------------
fn encode_opt_id(e: &mut Encoder, p: &Option<InodeId>)
    ensures
        final(e)@ == old(e)@ + spec_opt_id_bytes(*p),
{
    match p {
        Some(id) => {
            e.put_u8(1);
            e.put_u64(id.0);
        },
        None => e.put_u8(0),
    }
}

fn decode_opt_id<'a>(d: &mut Decoder<'a>) -> (r: Result<Option<InodeId>, VfsError>)
    ensures
        match dec_opt_id(old(d).bytes(), old(d).pos()) {
            Some((v, q)) => {
                &&& r is Ok
                &&& r.unwrap() == v
                &&& final(d).bytes() == old(d).bytes()
                &&& final(d).pos() == q
            },
            None => r matches Err(err) && err is CorruptLog && final(d).bytes() == old(d).bytes(),
        },
{
    match d.get_u8()? {
        0 => Ok(None),
        1 => Ok(Some(InodeId(d.get_u64()?))),
        _ => Err(VfsError::CorruptLog("invalid parent tag".to_owned())),
    }
}

fn encode_opt_timestamp(e: &mut Encoder, t: &Option<Timestamp>)
    ensures
        final(e)@ == old(e)@ + spec_opt_ts_bytes(*t),
{
    match t {
        None => e.put_u8(0),
        Some(v) => {
            e.put_u8(1);
            e.put_i128(v.0);
        },
    }
}

fn decode_opt_timestamp<'a>(d: &mut Decoder<'a>) -> (r: Result<Option<Timestamp>, VfsError>)
    ensures
        match dec_opt_ts(old(d).bytes(), old(d).pos()) {
            Some((v, q)) => {
                &&& r is Ok
                &&& r.unwrap() == v
                &&& final(d).bytes() == old(d).bytes()
                &&& final(d).pos() == q
            },
            None => r matches Err(err) && err is CorruptLog && final(d).bytes() == old(d).bytes(),
        },
{
    match d.get_u8()? {
        0 => Ok(None),
        1 => Ok(Some(Timestamp(d.get_i128()?))),
        _ => Err(VfsError::CorruptLog("invalid opt timestamp tag".to_owned())),
    }
}

fn encode_kind(e: &mut Encoder, k: &NodeKind)
    ensures
        final(e)@ == old(e)@.push(spec_kind_byte(*k)),
{
    match k {
        NodeKind::File => e.put_u8(1),
        NodeKind::Dir => e.put_u8(2),
    }
}

fn decode_kind<'a>(d: &mut Decoder<'a>) -> (r: Result<NodeKind, VfsError>)
    ensures
        match dec_kind(old(d).bytes(), old(d).pos()) {
            Some((v, q)) => {
                &&& r is Ok
                &&& r.unwrap() == v
                &&& final(d).bytes() == old(d).bytes()
                &&& final(d).pos() == q
            },
            None => r matches Err(err) && err is CorruptLog && final(d).bytes() == old(d).bytes(),
        },
{
    match d.get_u8()? {
        1 => Ok(NodeKind::File),
        2 => Ok(NodeKind::Dir),
        _ => Err(VfsError::CorruptLog("invalid inode kind".to_owned())),
    }
}

fn encode_extent(e: &mut Encoder, ex: &Extent)
    ensures
        final(e)@ == old(e)@ + spec_extent_bytes(*ex),
{
    e.put_u64(ex.logical_offset);
    e.put_u64(ex.file_offset);
    e.put_u64(ex.len);
}

fn decode_extent<'a>(d: &mut Decoder<'a>) -> (r: Result<Extent, VfsError>)
    ensures
        match dec_extent(old(d).bytes(), old(d).pos()) {
            Some((v, q)) => {
                &&& r is Ok
                &&& r.unwrap() == v
                &&& final(d).bytes() == old(d).bytes()
                &&& final(d).pos() == q
            },
            None => r matches Err(err) && err is CorruptLog && final(d).bytes() == old(d).bytes(),
        },
{
    let logical_offset = d.get_u64()?;
    let file_offset = d.get_u64()?;
    let len = d.get_u64()?;
    Ok(Extent { logical_offset, file_offset, len })
}

fn encode_extent_list(e: &mut Encoder, es: &Vec<Extent>)
    ensures
        final(e)@ == old(e)@ + spec_extent_list_bytes(es@),
{
    e.put_u64(es.len() as u64);
    let mut i: usize = 0;
    while i < es.len()
        invariant
            i <= es.len(),
            e@ == old(e)@ + spec_u64_to_le_bytes(es@.len() as u64) + spec_extent_items_bytes(
                es@.take(i as int),
            ),
        decreases es.len() - i,
    {
        encode_extent(e, &es[i]);
        proof {
            assert(es@.take(i + 1).drop_last() =~= es@.take(i as int));
            assert(es@.take(i + 1).last() == es@[i as int]);
        }
        i = i + 1;
    }
    proof {
        assert(es@.take(es@.len() as int) =~= es@);
    }
}

fn decode_extent_list<'a>(d: &mut Decoder<'a>) -> (r: Result<Vec<Extent>, VfsError>)
    ensures
        match dec_extent_list(old(d).bytes(), old(d).pos()) {
            Some((v, q)) => {
                &&& r is Ok
                &&& r.unwrap()@ == v
                &&& final(d).bytes() == old(d).bytes()
                &&& final(d).pos() == q
            },
            None => r matches Err(err) && err is CorruptLog && final(d).bytes() == old(d).bytes(),
        },
{
    let ghost b = d.bytes();
    let count = d.get_u64()?;
    let mut out: Vec<Extent> = Vec::new();
    let mut i: u64 = 0;
    while i < count
        invariant
            i <= count,
            b == old(d).bytes(),
            d.bytes() == b,
            dec_extents(b, d.pos(), count - i) matches Some((rest, end))
                ==> dec_extents(b, old(d).pos() + 8, count as int) == Some::<(Seq<Extent>, int)>(
                (out@ + rest, end),
            ),
            dec_extents(b, d.pos(), count - i) is None ==> dec_extents(
                b,
                old(d).pos() + 8,
                count as int,
            ) is None,
            dec_u64(b, old(d).pos()) == Some::<(u64, int)>((count, old(d).pos() + 8)),
        decreases count - i,
    {
        let ghost pos0 = d.pos();
        let ex = match decode_extent(d) {
            Ok(ex) => ex,
            Err(err) => {
                proof {
                    assert(dec_extents(b, pos0, count - i) is None);
                }
                return Err(err);
            },
        };
        proof {
            assert(dec_extents(b, d.pos(), count - i - 1) matches Some((r2, e2))
                ==> (out@ + seq![ex]) + r2 =~= out@ + (seq![ex] + r2));
        }
        out.push(ex);
        i = i + 1;
    }
    proof {
        assert(dec_extents(b, d.pos(), 0) == Some::<(Seq<Extent>, int)>(
            (Seq::<Extent>::empty(), d.pos()),
        ));
        assert(out@ + Seq::<Extent>::empty() =~= out@);
    }
    Ok(out)
}

fn encode_inode_snapshot(e: &mut Encoder, snap: &InodeSnapshot)
    ensures
        final(e)@ == old(e)@ + spec_inode_snapshot_bytes(snap@),
{
    e.put_u64(snap.id.0);
    encode_opt_id(e, &snap.parent);
    e.put_string(snap.name.as_str());
    encode_kind(e, &snap.kind);
    e.put_u64(snap.metadata.size);
    e.put_i128(snap.metadata.created_at.0);
    e.put_i128(snap.metadata.modified_at.0);
    encode_extent_list(e, &snap.extents);
}

fn decode_inode_snapshot<'a>(d: &mut Decoder<'a>) -> (r: Result<InodeSnapshot, VfsError>)
    ensures
        match dec_inode_snapshot(old(d).bytes(), old(d).pos()) {
            Some((v, q)) => {
                &&& r is Ok
                &&& r.unwrap()@ == v
                &&& final(d).bytes() == old(d).bytes()
                &&& final(d).pos() == q
            },
            None => r matches Err(err) && err is CorruptLog && final(d).bytes() == old(d).bytes(),
        },
{
    let id = InodeId(d.get_u64()?);
    let parent = decode_opt_id(d)?;
    let name = d.get_string()?;
    let kind = decode_kind(d)?;
    let size = d.get_u64()?;
    let created_at = Timestamp(d.get_i128()?);
    let modified_at = Timestamp(d.get_i128()?);
    let extents = decode_extent_list(d)?;
    Ok(InodeSnapshot {
        id,
        parent,
        name,
        kind,
        metadata: Metadata { size, created_at, modified_at },
        extents,
    })
}

fn encode_dir_entry(e: &mut Encoder, de: &DirEntry)
    ensures
        final(e)@ == old(e)@ + spec_dir_entry_bytes(de@),
{
    e.put_u64(de.parent.0);
    e.put_u64(de.inode.0);
    e.put_string(de.name.as_str());
    encode_kind(e, &de.kind);
}

fn decode_dir_entry<'a>(d: &mut Decoder<'a>) -> (r: Result<DirEntry, VfsError>)
    ensures
        match dec_dir_entry(old(d).bytes(), old(d).pos()) {
            Some((v, q)) => {
                &&& r is Ok
                &&& r.unwrap()@ == v
                &&& final(d).bytes() == old(d).bytes()
                &&& final(d).pos() == q
            },
            None => r matches Err(err) && err is CorruptLog && final(d).bytes() == old(d).bytes(),
        },
{
    let parent = InodeId(d.get_u64()?);
    let inode = InodeId(d.get_u64()?);
    let name = d.get_string()?;
    let kind = decode_kind(d)?;
    Ok(DirEntry { parent, inode, name, kind })
}

fn encode_checkpoint(e: &mut Encoder, cp: &Checkpoint)
    ensures
        final(e)@ == old(e)@ + spec_checkpoint_bytes(cp@),
{
    e.put_u64(cp.next_inode.0);
    encode_extent_list(e, &cp.free_extents);
    e.put_u64(cp.inodes.len() as u64);
    let ghost snaps = cp.inodes@.map_values(|s: InodeSnapshot| s@);
    let mut i: usize = 0;
    while i < cp.inodes.len()
        invariant
            i <= cp.inodes.len(),
            snaps == cp.inodes@.map_values(|s: InodeSnapshot| s@),
            e@ == old(e)@ + spec_u64_to_le_bytes(cp.next_inode.0) + spec_extent_list_bytes(
                cp.free_extents@,
            ) + spec_u64_to_le_bytes(cp.inodes@.len() as u64) + spec_snapshot_items_bytes(
                snaps.take(i as int),
            ),
        decreases cp.inodes.len() - i,
    {
        encode_inode_snapshot(e, &cp.inodes[i]);
        proof {
            assert(snaps.take(i + 1).drop_last() =~= snaps.take(i as int));
            assert(snaps.take(i + 1).last() == snaps[i as int]);
        }
        i = i + 1;
    }
    proof {
        assert(snaps.take(snaps.len() as int) =~= snaps);
    }
}

fn decode_checkpoint<'a>(d: &mut Decoder<'a>) -> (r: Result<Checkpoint, VfsError>)
    ensures
        match dec_checkpoint(old(d).bytes(), old(d).pos()) {
            Some((v, q)) => {
                &&& r is Ok
                &&& r.unwrap()@ == v
                &&& final(d).bytes() == old(d).bytes()
                &&& final(d).pos() == q
            },
            None => r matches Err(err) && err is CorruptLog && final(d).bytes() == old(d).bytes(),
        },
{
    let ghost b = d.bytes();
    let next_inode = InodeId(d.get_u64()?);
    let free_extents = decode_extent_list(d)?;
    let ghost qfree = d.pos();
    let count = d.get_u64()?;
    let mut out: Vec<InodeSnapshot> = Vec::new();
    let mut i: u64 = 0;
    while i < count
        invariant
            i <= count,
            b == old(d).bytes(),
            d.bytes() == b,
            dec_snapshots(b, d.pos(), count - i) matches Some((rest, end)) ==> dec_snapshots(
                b,
                qfree + 8,
                count as int,
            ) == Some::<(Seq<InodeView>, int)>(
                (out@.map_values(|s: InodeSnapshot| s@) + rest, end),
            ),
            dec_snapshots(b, d.pos(), count - i) is None ==> dec_snapshots(
                b,
                qfree + 8,
                count as int,
            ) is None,
            dec_u64(b, old(d).pos()) == Some::<(u64, int)>((next_inode.0, old(d).pos() + 8)),
            dec_extent_list(b, old(d).pos() + 8) == Some::<(Seq<Extent>, int)>(
                (free_extents@, qfree),
            ),
            dec_u64(b, qfree) == Some::<(u64, int)>((count, qfree + 8)),
        decreases count - i,
    {
        let ghost pos0 = d.pos();
        let snap = match decode_inode_snapshot(d) {
            Ok(s) => s,
            Err(err) => {
                proof {
                    assert(dec_snapshots(b, pos0, count - i) is None);
                }
                return Err(err);
            },
        };
        proof {
            assert(dec_snapshots(b, d.pos(), count - i - 1) matches Some((r2, e2)) ==> (
            out@.map_values(|s: InodeSnapshot| s@) + seq![snap@]) + r2 =~= out@.map_values(
                |s: InodeSnapshot| s@,
            ).push(snap@) + r2);
            assert(out@.push(snap).map_values(|s: InodeSnapshot| s@) =~= out@.map_values(
                |s: InodeSnapshot| s@,
            ).push(snap@));
        }
        out.push(snap);
        i = i + 1;
    }
    proof {
        assert(dec_snapshots(b, d.pos(), 0) == Some::<(Seq<InodeView>, int)>(
            (Seq::<InodeView>::empty(), d.pos()),
        ));
        assert(out@.map_values(|s: InodeSnapshot| s@) + Seq::<InodeView>::empty()
            =~= out@.map_values(|s: InodeSnapshot| s@));
    }
    Ok(Checkpoint { next_inode, free_extents, inodes: out })
}

fn encode_truncate(e: &mut Encoder, inode: InodeId, len: u64)
    ensures
        final(e)@ == old(e)@ + spec_u64_to_le_bytes(inode.0) + spec_u64_to_le_bytes(len),
{
    e.put_u64(inode.0);
    e.put_u64(len);
}

fn decode_truncate<'a>(d: &mut Decoder<'a>) -> (r: Result<(InodeId, u64), VfsError>)
    ensures
        match dec_u64(old(d).bytes(), old(d).pos()) {
            Some((ino, q1)) => match dec_u64(old(d).bytes(), q1) {
                Some((ln, q2)) => {
                    &&& r is Ok
                    &&& r.unwrap() == (InodeId(ino), ln)
                    &&& final(d).bytes() == old(d).bytes()
                    &&& final(d).pos() == q2
                },
                None => r matches Err(err) && err is CorruptLog,
            },
            None => r matches Err(err) && err is CorruptLog,
        },
{
    let inode = InodeId(d.get_u64()?);
    let len = d.get_u64()?;
    Ok((inode, len))
}

fn encode_set_times(
    e: &mut Encoder,
    inode: InodeId,
    created: &Option<Timestamp>,
    modified: &Option<Timestamp>,
)
    ensures
        final(e)@ == old(e)@ + spec_u64_to_le_bytes(inode.0) + spec_opt_ts_bytes(*created)
            + spec_opt_ts_bytes(*modified),
{
    e.put_u64(inode.0);
    encode_opt_timestamp(e, created);
    encode_opt_timestamp(e, modified);
}

fn decode_set_times<'a>(d: &mut Decoder<'a>) -> (r: Result<
    (InodeId, Option<Timestamp>, Option<Timestamp>),
    VfsError,
>)
    ensures
        match dec_set_times(old(d).bytes(), old(d).pos()) {
            Some((v, q)) => {
                &&& r is Ok
                &&& r.unwrap() == v
                &&& final(d).bytes() == old(d).bytes()
                &&& final(d).pos() == q
            },
            None => r matches Err(err) && err is CorruptLog,
        },
{
    let inode = InodeId(d.get_u64()?);
    let created = decode_opt_timestamp(d)?;
    let modified = decode_opt_timestamp(d)?;
    Ok((inode, created, modified))
}

fn encode_dir_entry_remove(e: &mut Encoder, parent: InodeId, name: &str, inode: InodeId)
    ensures
        final(e)@ == old(e)@ + spec_u64_to_le_bytes(parent.0) + spec_string_bytes(name@)
            + spec_u64_to_le_bytes(inode.0),
{
    e.put_u64(parent.0);
    e.put_string(name);
    e.put_u64(inode.0);
}

fn decode_dir_entry_remove<'a>(d: &mut Decoder<'a>) -> (r: Result<
    (InodeId, String, InodeId),
    VfsError,
>)
    ensures
        match dec_dir_entry_remove(old(d).bytes(), old(d).pos()) {
            Some((v, q)) => {
                &&& r is Ok
                &&& r.unwrap().0 == v.0
                &&& r.unwrap().1@ == v.1
                &&& r.unwrap().2 == v.2
                &&& final(d).bytes() == old(d).bytes()
                &&& final(d).pos() == q
            },
            None => r matches Err(err) && err is CorruptLog,
        },
{
    let parent = InodeId(d.get_u64()?);
    let name = d.get_string()?;
    let inode = InodeId(d.get_u64()?);
    Ok((parent, name, inode))
}

fn encode_rename(
    e: &mut Encoder,
    inode: InodeId,
    old_parent: InodeId,
    new_parent: InodeId,
    old_name: &str,
    new_name: &str,
)
    ensures
        final(e)@ == old(e)@ + spec_u64_to_le_bytes(inode.0) + spec_u64_to_le_bytes(old_parent.0)
            + spec_u64_to_le_bytes(new_parent.0) + spec_string_bytes(old_name@)
            + spec_string_bytes(new_name@),
{
    e.put_u64(inode.0);
    e.put_u64(old_parent.0);
    e.put_u64(new_parent.0);
    e.put_string(old_name);
    e.put_string(new_name);
}

fn decode_rename<'a>(d: &mut Decoder<'a>) -> (r: Result<
    (InodeId, InodeId, InodeId, String, String),
    VfsError,
>)
    ensures
        match dec_rename(old(d).bytes(), old(d).pos()) {
            Some((v, q)) => {
                &&& r is Ok
                &&& r.unwrap().0 == v.0
                &&& r.unwrap().1 == v.1
                &&& r.unwrap().2 == v.2
                &&& r.unwrap().3@ == v.3
                &&& r.unwrap().4@ == v.4
                &&& final(d).bytes() == old(d).bytes()
                &&& final(d).pos() == q
            },
            None => r matches Err(err) && err is CorruptLog,
        },
{
    let inode = InodeId(d.get_u64()?);
    let old_parent = InodeId(d.get_u64()?);
    let new_parent = InodeId(d.get_u64()?);
    let old_name = d.get_string()?;
    let new_name = d.get_string()?;
    Ok((inode, old_parent, new_parent, old_name, new_name))
}

/// Decode the `SetTimes` body: inode id, then two optional timestamps.
pub open spec fn dec_set_times(b: Seq<u8>, p: int) -> Option<
    ((InodeId, Option<Timestamp>, Option<Timestamp>), int),
> {
    match dec_u64(b, p) {
        Some((ino, q1)) => match dec_opt_ts(b, q1) {
            Some((created, q2)) => match dec_opt_ts(b, q2) {
                Some((modified, q3)) => Some(((InodeId(ino), created, modified), q3)),
                None => None,
            },
            None => None,
        },
        None => None,
    }
}

/// Decode the `DirEntryRemove` body: parent, name, inode.
pub open spec fn dec_dir_entry_remove(b: Seq<u8>, p: int) -> Option<
    ((InodeId, Seq<char>, InodeId), int),
> {
    match dec_u64(b, p) {
        Some((parent, q1)) => match dec_string(b, q1) {
            Some((name, q2)) => match dec_u64(b, q2) {
                Some((ino, q3)) => Some(((InodeId(parent), name, InodeId(ino)), q3)),
                None => None,
            },
            None => None,
        },
        None => None,
    }
}

// ---------------------------------------------------------------------
// Record payload: tag byte plus body.
// ---------------------------------------------------------------------
/// The tag byte under which each record kind is framed.
pub open spec fn spec_record_tag(r: RecordView) -> u8 {
    match r {
        RecordView::InodeAlloc(_) => 1u8,
        RecordView::DirEntryAdd { .. } => 2u8,
        RecordView::DataWrite { .. } => 3u8,
        RecordView::Truncate { .. } => 4u8,
        RecordView::SetTimes { .. } => 5u8,
        RecordView::DirEntryRemove { .. } => 6u8,
        RecordView::Rename { .. } => 7u8,
        RecordView::Checkpoint(_) => 8u8,
    }
}

/// The body bytes of a record, following its tag byte. For `DataWrite`
/// this is the fixed 28-byte header; the data bytes live after the frame
/// CRC and are not part of the body.
pub open spec fn spec_record_body(r: RecordView) -> Seq<u8> {
    match r {
        RecordView::InodeAlloc(s) => spec_inode_snapshot_bytes(s),
        RecordView::DirEntryAdd { entry } => spec_dir_entry_bytes(entry),
        RecordView::DataWrite { inode, logical_offset, len, checksum } => spec_u64_to_le_bytes(
            inode.0,
        ) + spec_u64_to_le_bytes(logical_offset) + spec_u64_to_le_bytes(len)
            + spec_u32_to_le_bytes(checksum),
        RecordView::Truncate { inode, len } => spec_u64_to_le_bytes(inode.0)
            + spec_u64_to_le_bytes(len),
        RecordView::SetTimes { inode, created_at, modified_at } => spec_u64_to_le_bytes(inode.0)
            + spec_opt_ts_bytes(created_at) + spec_opt_ts_bytes(modified_at),
        RecordView::DirEntryRemove { parent, name, inode } => spec_u64_to_le_bytes(parent.0)
            + spec_string_bytes(name) + spec_u64_to_le_bytes(inode.0),
        RecordView::Rename { inode, old_parent, new_parent, old_name, new_name } => {
            spec_u64_to_le_bytes(inode.0) + spec_u64_to_le_bytes(old_parent.0)
                + spec_u64_to_le_bytes(new_parent.0) + spec_string_bytes(old_name)
                + spec_string_bytes(new_name)
        },
        RecordView::Checkpoint(cp) => spec_checkpoint_bytes(cp),
    }
}

/// Whether a name is small enough for its length prefix.
pub open spec fn name_encodable(s: Seq<char>) -> bool {
    encode_utf8(s).len() <= u64::MAX
}

/// Whether an inode snapshot's variable-size parts fit their prefixes.
pub open spec fn snapshot_encodable(s: InodeView) -> bool {
    &&& name_encodable(s.name)
    &&& s.extents.len() <= u64::MAX
}

/// Whether a record's variable-size parts fit their length prefixes and
/// the whole frame length fits a `u64`.
pub open spec fn record_encodable(r: RecordView) -> bool {
    &&& match r {
        RecordView::InodeAlloc(s) => snapshot_encodable(s),
        RecordView::DirEntryAdd { entry } => name_encodable(entry.name),
        RecordView::DataWrite { .. } => true,
        RecordView::Truncate { .. } => true,
        RecordView::SetTimes { .. } => true,
        RecordView::DirEntryRemove { name, .. } => name_encodable(name),
        RecordView::Rename { old_name, new_name, .. } => name_encodable(old_name)
            && name_encodable(new_name),
        RecordView::Checkpoint(cp) => {
            &&& cp.free_extents.len() <= u64::MAX
            &&& cp.inodes.len() <= u64::MAX
            &&& forall|i: int|
                0 <= i < cp.inodes.len() ==> snapshot_encodable(#[trigger] cp.inodes[i])
        },
    }
    &&& spec_record_body(r).len() + 17 <= u64::MAX
}

/// Decode a framed record payload: tag byte, body, nothing left over.
/// Tag 3 (`DataWrite`) never reaches this path; its frame shape is
/// handled by [`parse_frame`] directly.
pub open spec fn spec_decode_record_payload(payload: Seq<u8>) -> Option<RecordView> {
    match dec_u8(payload, 0) {
        Some((tag, q)) => {
            if tag == 1 {
                match dec_inode_snapshot(payload, q) {
                    Some((s, r)) => if r == payload.len() {
                        Some(RecordView::InodeAlloc(s))
                    } else {
                        None
                    },
                    None => None,
                }
            } else if tag == 2 {
                match dec_dir_entry(payload, q) {
                    Some((entry, r)) => if r == payload.len() {
                        Some(RecordView::DirEntryAdd { entry })
                    } else {
                        None
                    },
                    None => None,
                }
            } else if tag == 4 {
                match dec_u64(payload, q) {
                    Some((ino, q1)) => match dec_u64(payload, q1) {
                        Some((ln, q2)) => if q2 == payload.len() {
                            Some(RecordView::Truncate { inode: InodeId(ino), len: ln })
                        } else {
                            None
                        },
                        None => None,
                    },
                    None => None,
                }
            } else if tag == 5 {
                match dec_set_times(payload, q) {
                    Some(((inode, created_at, modified_at), r)) => if r == payload.len() {
                        Some(RecordView::SetTimes { inode, created_at, modified_at })
                    } else {
                        None
                    },
                    None => None,
                }
            } else if tag == 6 {
                match dec_dir_entry_remove(payload, q) {
                    Some(((parent, name, inode), r)) => if r == payload.len() {
                        Some(RecordView::DirEntryRemove { parent, name, inode })
                    } else {
                        None
                    },
                    None => None,
                }
            } else if tag == 7 {
                match dec_rename(payload, q) {
                    Some(((inode, old_parent, new_parent, old_name, new_name), r)) => if r
                        == payload.len() {
                        Some(
                            RecordView::Rename {
                                inode,
                                old_parent,
                                new_parent,
                                old_name,
                                new_name,
                            },
                        )
                    } else {
                        None
                    },
                    None => None,
                }
            } else if tag == 8 {
                match dec_checkpoint(payload, q) {
                    Some((cp, r)) => if r == payload.len() {
                        Some(RecordView::Checkpoint(cp))
                    } else {
                        None
                    },
                    None => None,
                }
            } else {
                None
            }
        },
        None => None,
    }
}

// ---------------------------------------------------------------------
// Frames: magic, length, payload, CRC trailer (and raw data for tag 3).
// ---------------------------------------------------------------------
/// The full frame bytes of a self-contained record: magic, `rec_len`
/// (tag + body + 4-byte trailer), tag, body, and the CRC-32 over
/// everything before the trailer.
pub open spec fn spec_frame_bytes(r: RecordView) -> Seq<u8> {
    let payload = seq![spec_record_tag(r)] + spec_record_body(r);
    let pre = spec_record_magic() + spec_u64_to_le_bytes((payload.len() + 4) as u64) + payload;
    pre + spec_u32_to_le_bytes(crc32_of(pre))
}

/// The full frame bytes of a `DataWrite` record: magic, `rec_len`
/// (tag + 28-byte header + 4-byte header CRC + data length), the header
/// with the data's own CRC-32, the header CRC-32, then the raw data.
pub open spec fn spec_data_frame_bytes(inode: InodeId, logical_offset: u64, data: Seq<u8>) -> Seq<
    u8,
> {
    let payload = seq![3u8] + spec_u64_to_le_bytes(inode.0) + spec_u64_to_le_bytes(logical_offset)
        + spec_u64_to_le_bytes(data.len() as u64) + spec_u32_to_le_bytes(crc32_of(data));
    let pre = spec_record_magic() + spec_u64_to_le_bytes((payload.len() + 4 + data.len()) as u64)
        + payload;
    pre + spec_u32_to_le_bytes(crc32_of(pre)) + data
}

/// The view of a `DataWrite` record as recovered from its frame.
pub open spec fn spec_data_write_view(inode: InodeId, logical_offset: u64, data: Seq<u8>) -> RecordView {
    RecordView::DataWrite {
        inode,
        logical_offset,
        len: data.len() as u64,
        checksum: crc32_of(data),
    }
}

/// Outcome of reading one frame at an offset: a decoded record together
/// with its data offset (for `DataWrite`) and the next frame's offset; a
/// clean end of the readable log (truncated or missing tail); or bytes
/// that cannot be a frame (corruption).
pub enum ParseStep {
    Rec { rec: RecordView, data_off: Option<int>, next: int },
    End,
    Bad,
}

/// Read one frame of the log at byte offset `off`.
///
/// Incomplete frames and CRC mismatches yield `End` (the tail-truncation
/// rule); a wrong magic, an inconsistent length, or a payload that does
/// not decode yield `Bad`.
pub open spec fn parse_frame(data: Seq<u8>, off: int) -> ParseStep {
    if off < 0 {
        ParseStep::Bad
    } else if off + 4 > data.len() {
        ParseStep::End
    } else if data.subrange(off, off + 4) != spec_record_magic() {
        ParseStep::Bad
    } else if off + 13 > data.len() {
        ParseStep::End
    } else {
        let rec_len = spec_u64_from_le_bytes(data.subrange(off + 4, off + 12)) as int;
        let tag = data[off + 12];
        if tag == 3 {
            if off + 45 > data.len() {
                ParseStep::End
            } else {
                let inode = spec_u64_from_le_bytes(data.subrange(off + 13, off + 21));
                let logical_offset = spec_u64_from_le_bytes(data.subrange(off + 21, off + 29));
                let dlen = spec_u64_from_le_bytes(data.subrange(off + 29, off + 37)) as int;
                let data_crc = spec_u32_from_le_bytes(data.subrange(off + 37, off + 41));
                let expected = spec_u32_from_le_bytes(data.subrange(off + 41, off + 45));
                if crc32_of(data.subrange(off, off + 41)) != expected {
                    ParseStep::End
                } else if rec_len != 33 + dlen {
                    ParseStep::Bad
                } else if off + 45 + dlen > data.len() {
                    ParseStep::End
                } else {
                    ParseStep::Rec {
                        rec: RecordView::DataWrite {
                            inode: InodeId(inode),
                            logical_offset,
                            len: dlen as u64,
                            checksum: data_crc,
                        },
                        data_off: Some(off + 45),
                        next: off + 12 + rec_len,
                    }
                }
            }
        } else {
            if rec_len < 5 {
                ParseStep::Bad
            } else if off + 12 + rec_len > data.len() {
                ParseStep::End
            } else {
                let payload = data.subrange(off + 12, off + 12 + rec_len - 4);
                let expected = spec_u32_from_le_bytes(
                    data.subrange(off + 12 + rec_len - 4, off + 12 + rec_len),
                );
                if crc32_of(data.subrange(off, off + 12 + rec_len - 4)) != expected {
                    ParseStep::End
                } else {
                    match spec_decode_record_payload(payload) {
                        Some(rec) => ParseStep::Rec {
                            rec,
                            data_off: None,
                            next: off + 12 + rec_len,
                        },
                        None => ParseStep::Bad,
                    }
                }
            }
        }
    }
}

/// A decoded record and, for `DataWrite`, the absolute offset at which
/// its data bytes begin in the backing store.
pub struct DecodedRecord {
    pub record: Record,
    pub data_payload_offset: Option<u64>,
}

/// Whether a record travels through `write_record` (everything but the
/// reserved `Header` and the data-carrying `DataWrite`).
pub open spec fn record_framable(r: Record) -> bool {
    !(r is Header) && !(r is DataWrite)
}

/// What `write_record` guarantees: on success the frame is appended at
/// the returned offset; otherwise the store is unchanged.
pub open spec fn write_record_post(
    pre: Seq<u8>,
    post: Seq<u8>,
    rec: Record,
    r: Result<u64, VfsError>,
) -> bool {
    if record_framable(rec) {
        if pre.len() + spec_frame_bytes(rec@).len() <= u64::MAX {
            &&& r matches Ok(off) && off == pre.len()
            &&& post == pre + spec_frame_bytes(rec@)
        } else {
            &&& r matches Err(e) && e is Io
            &&& post == pre
        }
    } else {
        &&& r matches Err(e) && e is CorruptLog
        &&& post == pre
    }
}

/// Frame a record and append it to the store.
///
/// Returns the offset at which the frame starts. The reserved `Header`
/// and `DataWrite` records are refused; a frame that would push the
/// store past the `u64` offset range is refused with `Io`.
pub fn write_record(store: &mut Vec<u8>, record: &Record) -> (r: Result<u64, VfsError>)
    ensures
        write_record_post(old(store)@, final(store)@, *record, r),
{
    let payload = match encode_record_payload(record) {
        Ok(p) => p,
        Err(e) => {
            return Err(e);
        },
    };
    proof {
        lemma_auto_spec_u64_to_from_le_bytes();
        lemma_auto_spec_u32_to_from_le_bytes();
        assert(spec_u64_to_le_bytes((payload@.len() + 4) as u64).len() == 8);
        assert(spec_frame_bytes(record@) =~= frame_of_payload(payload@));
    }
    append_frame(store, payload)
}

/// Encode a record's framed payload: its tag byte followed by its body.
/// The reserved `Header` and the data-carrying `DataWrite` are refused.
pub fn encode_record_payload(record: &Record) -> (r: Result<Vec<u8>, VfsError>)
    ensures
        match r {
            Ok(v) => record_framable(*record) && v@ == seq![spec_record_tag(record@)]
                + spec_record_body(record@),
            Err(e) => !record_framable(*record) && e is CorruptLog,
        },
{
    let mut e = Encoder::new();
    match record {
        Record::InodeAlloc(snap) => {
            e.put_u8(1);
            encode_inode_snapshot(&mut e, snap);
        },
        Record::DirEntryAdd { entry } => {
            e.put_u8(2);
            encode_dir_entry(&mut e, entry);
        },
        Record::Truncate { inode, len } => {
            e.put_u8(4);
            encode_truncate(&mut e, *inode, *len);
        },
        Record::SetTimes { inode, created_at, modified_at } => {
            e.put_u8(5);
            encode_set_times(&mut e, *inode, created_at, modified_at);
        },
        Record::DirEntryRemove { parent, name, inode } => {
            e.put_u8(6);
            encode_dir_entry_remove(&mut e, *parent, name.as_str(), *inode);
        },
        Record::Rename { inode, old_parent, new_parent, old_name, new_name } => {
            e.put_u8(7);
            encode_rename(
                &mut e,
                *inode,
                *old_parent,
                *new_parent,
                old_name.as_str(),
                new_name.as_str(),
            );
        },
        Record::Checkpoint(cp) => {
            e.put_u8(8);
            encode_checkpoint(&mut e, cp);
        },
        Record::Header(_) => {
            return Err(VfsError::CorruptLog("write_record: record not implemented".to_owned()));
        },
        Record::DataWrite { .. } => {
            return Err(VfsError::CorruptLog("write_record: record not implemented".to_owned()));
        },
    }
    let payload = e.into_inner();
    proof {
        assert(payload@ == seq![spec_record_tag(record@)] + spec_record_body(record@));
    }
    Ok(payload)
}

/// Append the frame around an already-encoded payload: magic, length,
/// payload, CRC trailer.
fn append_frame(store: &mut Vec<u8>, payload: Vec<u8>) -> (r: Result<u64, VfsError>)
    ensures
        ({
            let frame_len = 12 + payload@.len() + 4;
            if old(store)@.len() + frame_len <= u64::MAX {
                &&& r matches Ok(off) && off == old(store)@.len()
                &&& final(store)@ == old(store)@ + frame_of_payload(payload@)
            } else {
                &&& r matches Err(e) && e is Io
                &&& final(store)@ == old(store)@
            }
        }),
{
    let store_len = store.len();
    let payload_len = payload.len();
    if (payload_len as u128) + 16 > (u64::MAX as u128) - (store_len as u128) {
        return Err(VfsError::Io("backing store is full".to_owned()));
    }
    let rec_len = payload_len as u64 + 4;
    let mut e = Encoder::new();
    e.put_u8(RECORD_MAGIC_0);
    e.put_u8(RECORD_MAGIC_1);
    e.put_u8(RECORD_MAGIC_2);
    e.put_u8(RECORD_MAGIC_3);
    proof {
        assert(e@ =~= spec_record_magic());
    }
    e.put_u64(rec_len);
    e.put_raw(&payload);
    let mut scratch = e.into_inner();
    let header_crc = crc32(scratch.as_slice());
    let mut trailer = u32_to_le_bytes(header_crc);
    scratch.append(&mut trailer);
    proof {
        assert(scratch@ =~= frame_of_payload(payload@));
    }
    store.append(&mut scratch);
    Ok(store_len as u64)
}

/// The frame bytes around a raw payload.
pub open spec fn frame_of_payload(payload: Seq<u8>) -> Seq<u8> {
    let pre = spec_record_magic() + spec_u64_to_le_bytes((payload.len() + 4) as u64) + payload;
    pre + spec_u32_to_le_bytes(crc32_of(pre))
}

/// Decode a raw payload into a record: dispatch on the tag byte, decode
/// the body, and reject trailing bytes.
fn decode_record_payload(payload: &[u8]) -> (r: Result<Record, VfsError>)
    ensures
        match spec_decode_record_payload(payload@) {
            Some(rv) => r is Ok && r.unwrap()@ == rv && !(r.unwrap() is Header),
            None => r matches Err(e) && e is CorruptLog,
        },
{
    let mut d = Decoder::new(payload);
    let tag = d.get_u8()?;
    let record = match tag {
        1 => Record::InodeAlloc(decode_inode_snapshot(&mut d)?),
        2 => Record::DirEntryAdd { entry: decode_dir_entry(&mut d)? },
        4 => {
            let (inode, len) = decode_truncate(&mut d)?;
            Record::Truncate { inode, len }
        },
        5 => {
            let (inode, created_at, modified_at) = decode_set_times(&mut d)?;
            Record::SetTimes { inode, created_at, modified_at }
        },
        6 => {
            let (parent, name, inode) = decode_dir_entry_remove(&mut d)?;
            Record::DirEntryRemove { parent, name, inode }
        },
        7 => {
            let (inode, old_parent, new_parent, old_name, new_name) = decode_rename(&mut d)?;
            Record::Rename { inode, old_parent, new_parent, old_name, new_name }
        },
        8 => Record::Checkpoint(decode_checkpoint(&mut d)?),
        _ => {
            return Err(VfsError::CorruptLog("unexpected tag".to_owned()));
        },
    };
    if !d.is_eof() {
        return Err(VfsError::CorruptLog("trailing bytes".to_owned()));
    }
    Ok(record)
}

/// The bytes at `[pos, pos + n)` of the store.
fn bytes_at<'a>(store: &'a Vec<u8>, pos: usize, n: usize) -> (r: &'a [u8])
    requires
        pos + n <= store@.len(),
    ensures
        r@ == store@.subrange(pos as int, pos as int + n),
{
    let sl = store.as_slice();
    let _total = sl.len();
    slice_subrange(sl, pos, pos + n)
}

/// What `read_next_record` guarantees: its result mirrors the outcome of
/// [`parse_frame`] at the given offset.
pub open spec fn read_next_post(
    data: Seq<u8>,
    off: int,
    r: Result<Option<(DecodedRecord, u64)>, VfsError>,
) -> bool {
    match parse_frame(data, off) {
        ParseStep::Rec { rec, data_off, next } => {
            &&& r matches Ok(Some((d, n)))
            &&& d.record@ == rec
            &&& !(d.record is Header)
            &&& match (d.data_payload_offset, data_off) {
                (Some(x), Some(y)) => x == y,
                (None, None) => true,
                _ => false,
            }
            &&& n == next
        },
        ParseStep::End => r matches Ok(o) && o is None,
        ParseStep::Bad => r matches Err(e) && e is CorruptLog,
    }
}

/// Read the frame at byte offset `offset` of the store.
///
/// `Ok(None)` reports the end of the readable log: no frame starts
/// there, or the one that does is incomplete or fails its CRC (the
/// tail-truncation rule). Unframeable bytes are `CorruptLog`. On success
/// the decoded record comes with the offset of the following frame, and
/// a `DataWrite` record carries the absolute offset of its data bytes.
#[verifier::rlimit(100)]
pub fn read_next_record(store: &Vec<u8>, offset: u64) -> (r: Result<
    Option<(DecodedRecord, u64)>,
    VfsError,
>)
    ensures
        read_next_post(store@, offset as int, r),
{
    let store_len = store.len();
    let len64 = store_len as u64;
    if offset > len64 || len64 - offset < 4 {
        return Ok(None);
    }
    let off = offset as usize;
    let m = bytes_at(store, off, 4);
    let magic_ok = *slice_index_get(m, 0) == RECORD_MAGIC_0 && *slice_index_get(m, 1)
        == RECORD_MAGIC_1 && *slice_index_get(m, 2) == RECORD_MAGIC_2 && *slice_index_get(m, 3)
        == RECORD_MAGIC_3;
    if !magic_ok {
        proof {
            assert(store@.subrange(off as int, off as int + 4) != spec_record_magic());
        }
        return Err(VfsError::CorruptLog("bad record magic".to_owned()));
    }
    proof {
        assert(store@.subrange(off as int, off as int + 4) =~= spec_record_magic());
    }
    if len64 - offset < 13 {
        return Ok(None);
    }
    let rec_len = u64_from_le_bytes(bytes_at(store, off + 4, 8));
    let tag = *slice_index_get(bytes_at(store, off + 12, 1), 0);
    if tag == 3 {
        if len64 - offset < 45 {
            return Ok(None);
        }
        let inode = u64_from_le_bytes(bytes_at(store, off + 13, 8));
        let logical_offset = u64_from_le_bytes(bytes_at(store, off + 21, 8));
        let dlen = u64_from_le_bytes(bytes_at(store, off + 29, 8));
        let data_crc = u32_from_le_bytes(bytes_at(store, off + 37, 4));
        let expected = u32_from_le_bytes(bytes_at(store, off + 41, 4));
        let got = crc32(bytes_at(store, off, 41));
        if got != expected {
            return Ok(None);
        }
        if dlen > u64::MAX - 33 || rec_len != 33 + dlen {
            proof {
                assert(rec_len as int != 33 + dlen as int);
            }
            return Err(VfsError::CorruptLog("bad record framing".to_owned()));
        }
        let data_off = offset + 45;
        if dlen > len64 - data_off {
            return Ok(None);
        }
        proof {
            assert(offset + 12 + rec_len == offset + 45 + dlen);
        }
        let next = offset + 12 + rec_len;
        Ok(
            Some(
                (
                    DecodedRecord {
                        record: Record::DataWrite {
                            inode: InodeId(inode),
                            logical_offset,
                            len: dlen,
                            checksum: data_crc,
                        },
                        data_payload_offset: Some(data_off),
                    },
                    next,
                ),
            ),
        )
    } else {
        if rec_len < 5 {
            return Err(VfsError::CorruptLog("record len underflow".to_owned()));
        }
        if rec_len > len64 - offset - 12 {
            return Ok(None);
        }
        let rl = rec_len as usize;
        let expected = u32_from_le_bytes(bytes_at(store, off + 12 + rl - 4, 4));
        let got = crc32(bytes_at(store, off, 12 + rl - 4));
        if got != expected {
            return Ok(None);
        }
        let payload = bytes_at(store, off + 12, rl - 4);
        let record = decode_record_payload(payload)?;
        let next = offset + 12 + rec_len;
        Ok(Some((DecodedRecord { record, data_payload_offset: None }, next)))
    }
}

/// Append a `DataWrite` frame carrying the given bytes.
///
/// Returns the data's CRC-32 and the absolute offset at which the data
/// bytes begin (the future extent's `file_offset`). A frame that would
/// push the store past the `u64` offset range is refused with `Io`.
pub fn write_data_write_record(
    store: &mut Vec<u8>,
    inode: InodeId,
    logical_offset: u64,
    data: &[u8],
) -> (r: Result<(u32, u64), VfsError>)
    ensures
        if old(store)@.len() + 45 + data@.len() <= u64::MAX {
            &&& r matches Ok((crc, off))
            &&& crc == crc32_of(data@)
            &&& off == old(store)@.len() + 45
            &&& final(store)@ == old(store)@ + spec_data_frame_bytes(inode, logical_offset, data@)
        } else {
            &&& r matches Err(e) && e is Io
            &&& final(store)@ == old(store)@
        },
{
    let store_len = store.len();
    let data_len = data.len();
    if (data_len as u128) + 45 > (u64::MAX as u128) - (store_len as u128) {
        return Err(VfsError::Io("backing store is full".to_owned()));
    }
    let mut e = Encoder::new();
    e.put_u8(3);
    e.put_u64(inode.0);
    e.put_u64(logical_offset);
    e.put_u64(data_len as u64);
    let data_crc = crc32(data);
    e.put_u32(data_crc);
    let payload = e.into_inner();
    proof {
        lemma_auto_spec_u64_to_from_le_bytes();
        lemma_auto_spec_u32_to_from_le_bytes();
        assert(spec_u64_to_le_bytes(inode.0).len() == 8);
        assert(spec_u32_to_le_bytes(data_crc).len() == 4);
    }
    let rec_len = payload.len() as u64 + 4 + data_len as u64;
    let mut f = Encoder::new();
    f.put_u8(RECORD_MAGIC_0);
    f.put_u8(RECORD_MAGIC_1);
    f.put_u8(RECORD_MAGIC_2);
    f.put_u8(RECORD_MAGIC_3);
    proof {
        assert(f@ =~= spec_record_magic());
    }
    f.put_u64(rec_len);
    f.put_raw(&payload);
    let mut scratch = f.into_inner();
    let header_crc = crc32(scratch.as_slice());
    let mut trailer = u32_to_le_bytes(header_crc);
    scratch.append(&mut trailer);
    let data_payload_offset = store_len as u64 + 45;
    store.append(&mut scratch);
    let mut dvec = slice_to_vec(data);
    store.append(&mut dvec);
    proof {
        assert(final(store)@ =~= old(store)@ + spec_data_frame_bytes(
            inode,
            logical_offset,
            data@,
        ));
    }
    Ok((data_crc, data_payload_offset))
}

// ---------------------------------------------------------------------
// The persisted header block.
// ---------------------------------------------------------------------
/// The 24 header bytes: magic, version, block size, root inode id.
pub open spec fn spec_header_bytes(block_size: u32, root: InodeId) -> Seq<u8> {
    spec_header_magic() + spec_u32_to_le_bytes(VERSION) + spec_u32_to_le_bytes(block_size)
        + spec_u64_to_le_bytes(root.0)
}

/// Write the header block into an empty store.
pub fn write_header(store: &mut Vec<u8>, block_size: u32, root: InodeId) -> (r: Result<
    (),
    VfsError,
>)
    requires
        old(store)@.len() == 0,
    ensures
        r is Ok,
        final(store)@ == spec_header_bytes(block_size, root),
{
    let mut e = Encoder::new();
    let mut i: usize = 0;
    while i < 8
        invariant
            i <= 8,
            e@.len() == i,
            forall|j: int| 0 <= j < i ==> e@[j] == HEADER_MAGIC_BYTE,
        decreases 8 - i,
    {
        e.put_u8(HEADER_MAGIC_BYTE);
        i = i + 1;
    }
    proof {
        assert(e@ =~= spec_header_magic());
    }
    e.put_u32(VERSION);
    e.put_u32(block_size);
    e.put_u64(root.0);
    let mut b = e.into_inner();
    store.append(&mut b);
    proof {
        assert(final(store)@ =~= spec_header_bytes(block_size, root));
    }
    Ok(())
}

/// Whether the first 24 bytes of the store form a well-formed header
/// with the exact magic and the supported version.
pub open spec fn header_bytes_ok(data: Seq<u8>) -> bool {
    &&& data.len() >= 24
    &&& data.subrange(0, 8) == spec_header_magic()
    &&& spec_u32_from_le_bytes(data.subrange(8, 12)) == VERSION
}

/// The root inode id recorded in the header bytes.
pub open spec fn spec_header_root(data: Seq<u8>) -> InodeId {
    InodeId(spec_u64_from_le_bytes(data.subrange(16, 24)))
}

/// The block size recorded in the header bytes.
pub open spec fn spec_header_block_size(data: Seq<u8>) -> u32 {
    spec_u32_from_le_bytes(data.subrange(12, 16))
}

/// Read and validate the header block at the start of the store.
pub fn read_header(store: &Vec<u8>) -> (r: Result<Header, VfsError>)
    ensures
        store@.len() < 24 ==> (r matches Err(e) && e is CorruptLog),
        store@.len() >= 24 && store@.subrange(0, 8) != spec_header_magic() ==> (r matches Err(e)
            && e is CorruptLog),
        store@.len() >= 24 && store@.subrange(0, 8) == spec_header_magic()
            && spec_u32_from_le_bytes(store@.subrange(8, 12)) != VERSION ==> (r matches Err(e) && (
        e matches VfsError::UnsupportedVersion(v) && v == spec_u32_from_le_bytes(
            store@.subrange(8, 12),
        ))),
        header_bytes_ok(store@) ==> (r matches Ok(h) && h.magic@ == spec_header_magic()
            && h.version == VERSION && h.block_size == spec_header_block_size(store@) && h.root
            == spec_header_root(store@)),
{
    if store.len() < 24 {
        return Err(VfsError::CorruptLog("truncated header".to_owned()));
    }
    let m = bytes_at(store, 0, 8);
    let mut i: usize = 0;
    let mut magic_ok = true;
    while i < 8
        invariant
            i <= 8,
            m@ == store@.subrange(0, 8),
            store@.len() >= 24,
            magic_ok <==> (forall|j: int| 0 <= j < i ==> m@[j] == HEADER_MAGIC_BYTE),
        decreases 8 - i,
    {
        if *slice_index_get(m, i) != HEADER_MAGIC_BYTE {
            magic_ok = false;
        }
        i = i + 1;
    }
    if !magic_ok {
        proof {
            assert(store@.subrange(0, 8) != spec_header_magic());
        }
        return Err(VfsError::CorruptLog("invalid header magic".to_owned()));
    }
    proof {
        assert(store@.subrange(0, 8) =~= spec_header_magic());
    }
    let version = u32_from_le_bytes(bytes_at(store, 8, 4));
    if version != VERSION {
        return Err(VfsError::UnsupportedVersion(version));
    }
    let block_size = u32_from_le_bytes(bytes_at(store, 12, 4));
    let root = InodeId(u64_from_le_bytes(bytes_at(store, 16, 8)));
    let magic = [
        HEADER_MAGIC_BYTE,
        HEADER_MAGIC_BYTE,
        HEADER_MAGIC_BYTE,
        HEADER_MAGIC_BYTE,
        HEADER_MAGIC_BYTE,
        HEADER_MAGIC_BYTE,
        HEADER_MAGIC_BYTE,
        HEADER_MAGIC_BYTE,
    ];
    proof {
        assert(magic@ =~= spec_header_magic());
    }
    Ok(Header { magic, version, block_size, root })
}

// ---------------------------------------------------------------------
// Round trip: decoding an encoding finds the original value. These
// lemmas place the encoding at an arbitrary position of a larger buffer,
// which is how frames embed record bodies.
// ---------------------------------------------------------------------
/// Splitting a concatenation read out of a buffer into its two halves.
pub proof fn lemma_subrange_split(b: Seq<u8>, p: int, s1: Seq<u8>, s2: Seq<u8>)
    requires
        0 <= p,
        p + s1.len() + s2.len() <= b.len(),
        b.subrange(p, p + s1.len() + s2.len()) == s1 + s2,
    ensures
        b.subrange(p, p + s1.len()) == s1,
        b.subrange(p + s1.len(), p + s1.len() + s2.len()) == s2,
{
    let n1 = s1.len() as int;
    let n2 = s2.len() as int;
    assert forall|i: int| 0 <= i < n1 implies b.subrange(p, p + n1)[i] == s1[i] by {
        assert(b.subrange(p, p + n1 + n2)[i] == (s1 + s2)[i]);
    }
    assert(b.subrange(p, p + n1) =~= s1);
    assert forall|i: int| 0 <= i < n2 implies b.subrange(p + n1, p + n1 + n2)[i] == s2[i] by {
        assert(b.subrange(p, p + n1 + n2)[n1 + i] == (s1 + s2)[n1 + i]);
    }
    assert(b.subrange(p + n1, p + n1 + n2) =~= s2);
}

proof fn lemma_dec_u8_at(b: Seq<u8>, p: int, x: u8)
    requires
        0 <= p,
        p + 1 <= b.len(),
        b.subrange(p, p + 1) == seq![x],
    ensures
        dec_u8(b, p) == Some::<(u8, int)>((x, p + 1)),
{
    assert(b[p] == b.subrange(p, p + 1)[0]);
}

proof fn lemma_dec_u32_at(b: Seq<u8>, p: int, x: u32)
    requires
        0 <= p,
        p + 4 <= b.len(),
        b.subrange(p, p + 4) == spec_u32_to_le_bytes(x),
    ensures
        dec_u32(b, p) == Some::<(u32, int)>((x, p + 4)),
{
    lemma_auto_spec_u32_to_from_le_bytes();
    assert(spec_u32_to_le_bytes(x).len() == 4);
}

proof fn lemma_dec_u64_at(b: Seq<u8>, p: int, x: u64)
    requires
        0 <= p,
        p + 8 <= b.len(),
        b.subrange(p, p + 8) == spec_u64_to_le_bytes(x),
    ensures
        dec_u64(b, p) == Some::<(u64, int)>((x, p + 8)),
{
    lemma_auto_spec_u64_to_from_le_bytes();
    assert(spec_u64_to_le_bytes(x).len() == 8);
}

proof fn lemma_dec_i128_at(b: Seq<u8>, p: int, x: i128)
    requires
        0 <= p,
        p + 16 <= b.len(),
        b.subrange(p, p + 16) == spec_i128_to_le_bytes(x),
    ensures
        dec_i128(b, p) == Some::<(i128, int)>((x, p + 16)),
{
    lemma_i128_le_bytes_roundtrip(x);
}

proof fn lemma_dec_string_at(b: Seq<u8>, p: int, s: Seq<char>)
    requires
        0 <= p,
        name_encodable(s),
        p + spec_string_bytes(s).len() <= b.len(),
        b.subrange(p, p + spec_string_bytes(s).len()) == spec_string_bytes(s),
    ensures
        dec_string(b, p) == Some::<(Seq<char>, int)>((s, p + spec_string_bytes(s).len())),
        spec_string_bytes(s).len() == 8 + encode_utf8(s).len(),
{
    let e = encode_utf8(s);
    lemma_auto_spec_u64_to_from_le_bytes();
    assert(spec_u64_to_le_bytes(e.len() as u64).len() == 8);
    lemma_subrange_split(b, p, spec_u64_to_le_bytes(e.len() as u64), e);
    lemma_dec_u64_at(b, p, e.len() as u64);
    vstd::utf8::encode_utf8_valid_utf8(s);
    vstd::utf8::encode_utf8_decode_utf8(s);
}

proof fn lemma_dec_opt_id_at(b: Seq<u8>, p: int, v: Option<InodeId>)
    requires
        0 <= p,
        p + spec_opt_id_bytes(v).len() <= b.len(),
        b.subrange(p, p + spec_opt_id_bytes(v).len()) == spec_opt_id_bytes(v),
    ensures
        dec_opt_id(b, p) == Some::<(Option<InodeId>, int)>((v, p + spec_opt_id_bytes(v).len())),
        spec_opt_id_bytes(v).len() == if v is Some {
            9int
        } else {
            1int
        },
{
    lemma_auto_spec_u64_to_from_le_bytes();
    match v {
        None => {
            lemma_dec_u8_at(b, p, 0);
        },
        Some(id) => {
            assert(spec_u64_to_le_bytes(id.0).len() == 8);
            lemma_subrange_split(b, p, seq![1u8], spec_u64_to_le_bytes(id.0));
            lemma_dec_u8_at(b, p, 1);
            lemma_dec_u64_at(b, p + 1, id.0);
        },
    }
}

proof fn lemma_dec_opt_ts_at(b: Seq<u8>, p: int, v: Option<Timestamp>)
    requires
        0 <= p,
        p + spec_opt_ts_bytes(v).len() <= b.len(),
        b.subrange(p, p + spec_opt_ts_bytes(v).len()) == spec_opt_ts_bytes(v),
    ensures
        dec_opt_ts(b, p) == Some::<(Option<Timestamp>, int)>((v, p + spec_opt_ts_bytes(v).len())),
        spec_opt_ts_bytes(v).len() == if v is Some {
            17int
        } else {
            1int
        },
{
    match v {
        None => {
            lemma_dec_u8_at(b, p, 0);
        },
        Some(t) => {
            lemma_i128_le_bytes_roundtrip(t.0);
            lemma_subrange_split(b, p, seq![1u8], spec_i128_to_le_bytes(t.0));
            lemma_dec_u8_at(b, p, 1);
            lemma_dec_i128_at(b, p + 1, t.0);
        },
    }
}

proof fn lemma_dec_kind_at(b: Seq<u8>, p: int, k: NodeKind)
    requires
        0 <= p,
        p + 1 <= b.len(),
        b.subrange(p, p + 1) == seq![spec_kind_byte(k)],
    ensures
        dec_kind(b, p) == Some::<(NodeKind, int)>((k, p + 1)),
{
    lemma_dec_u8_at(b, p, spec_kind_byte(k));
}

proof fn lemma_dec_extent_at(b: Seq<u8>, p: int, e: Extent)
    requires
        0 <= p,
        p + 24 <= b.len(),
        b.subrange(p, p + 24) == spec_extent_bytes(e),
    ensures
        dec_extent(b, p) == Some::<(Extent, int)>((e, p + 24)),
        spec_extent_bytes(e).len() == 24,
{
    lemma_auto_spec_u64_to_from_le_bytes();
    assert(spec_u64_to_le_bytes(e.logical_offset).len() == 8);
    assert(spec_u64_to_le_bytes(e.file_offset).len() == 8);
    assert(spec_u64_to_le_bytes(e.len).len() == 8);
    assert(spec_extent_bytes(e) =~= spec_u64_to_le_bytes(e.logical_offset) + (spec_u64_to_le_bytes(
        e.file_offset,
    ) + spec_u64_to_le_bytes(e.len)));
    lemma_subrange_split(
        b,
        p,
        spec_u64_to_le_bytes(e.logical_offset),
        spec_u64_to_le_bytes(e.file_offset) + spec_u64_to_le_bytes(e.len),
    );
    lemma_subrange_split(
        b,
        p + 8,
        spec_u64_to_le_bytes(e.file_offset),
        spec_u64_to_le_bytes(e.len),
    );
    lemma_dec_u64_at(b, p, e.logical_offset);
    lemma_dec_u64_at(b, p + 8, e.file_offset);
    lemma_dec_u64_at(b, p + 16, e.len);
}

/// Each extent encodes to 24 bytes, so a list encodes to 24 per item.
proof fn lemma_extent_items_len(es: Seq<Extent>)
    ensures
        spec_extent_items_bytes(es).len() == 24 * es.len(),
    decreases es.len(),
{
    lemma_auto_spec_u64_to_from_le_bytes();
    if es.len() > 0 {
        lemma_extent_items_len(es.drop_last());
        assert(spec_extent_bytes(es.last()).len() == 24);
    }
}

/// Unfold the extent-list encoding at the head instead of the tail.
proof fn lemma_extent_items_head(es: Seq<Extent>)
    requires
        es.len() > 0,
    ensures
        spec_extent_items_bytes(es) == spec_extent_bytes(es[0]) + spec_extent_items_bytes(
            es.drop_first(),
        ),
    decreases es.len(),
{
    if es.len() == 1 {
        assert(es.drop_last() =~= Seq::<Extent>::empty());
        assert(es.drop_first() =~= Seq::<Extent>::empty());
        assert(es.last() == es[0]);
        assert(spec_extent_items_bytes(es) =~= spec_extent_bytes(es[0])
            + spec_extent_items_bytes(es.drop_first()));
    } else {
        let init = es.drop_last();
        lemma_extent_items_head(init);
        assert(init[0] == es[0]);
        assert(init.drop_first() =~= es.drop_first().drop_last());
        assert(es.drop_first().last() == es.last());
        assert(spec_extent_items_bytes(es) == (spec_extent_bytes(es[0])
            + spec_extent_items_bytes(es.drop_first().drop_last())) + spec_extent_bytes(
            es.last(),
        ));
        assert(spec_extent_items_bytes(es) =~= spec_extent_bytes(es[0])
            + spec_extent_items_bytes(es.drop_first()));
    }
}

proof fn lemma_dec_extents_at(b: Seq<u8>, p: int, es: Seq<Extent>)
    requires
        0 <= p,
        p + spec_extent_items_bytes(es).len() <= b.len(),
        b.subrange(p, p + spec_extent_items_bytes(es).len()) == spec_extent_items_bytes(es),
    ensures
        dec_extents(b, p, es.len() as int) == Some::<(Seq<Extent>, int)>(
            (es, p + spec_extent_items_bytes(es).len()),
        ),
    decreases es.len(),
{
    lemma_extent_items_len(es);
    if es.len() == 0 {
        assert(es =~= Seq::<Extent>::empty());
    } else {
        lemma_extent_items_head(es);
        lemma_extent_items_len(es.drop_first());
        lemma_subrange_split(
            b,
            p,
            spec_extent_bytes(es[0]),
            spec_extent_items_bytes(es.drop_first()),
        );
        lemma_dec_extent_at(b, p, es[0]);
        lemma_dec_extents_at(b, p + 24, es.drop_first());
        assert(seq![es[0]] + es.drop_first() =~= es);
    }
}

proof fn lemma_dec_extent_list_at(b: Seq<u8>, p: int, es: Seq<Extent>)
    requires
        0 <= p,
        es.len() <= u64::MAX,
        p + spec_extent_list_bytes(es).len() <= b.len(),
        b.subrange(p, p + spec_extent_list_bytes(es).len()) == spec_extent_list_bytes(es),
    ensures
        dec_extent_list(b, p) == Some::<(Seq<Extent>, int)>(
            (es, p + spec_extent_list_bytes(es).len()),
        ),
        spec_extent_list_bytes(es).len() == 8 + 24 * es.len(),
{
    lemma_auto_spec_u64_to_from_le_bytes();
    assert(spec_u64_to_le_bytes(es.len() as u64).len() == 8);
    lemma_extent_items_len(es);
    lemma_subrange_split(
        b,
        p,
        spec_u64_to_le_bytes(es.len() as u64),
        spec_extent_items_bytes(es),
    );
    lemma_dec_u64_at(b, p, es.len() as u64);
    lemma_dec_extents_at(b, p + 8, es);
}

proof fn lemma_dec_inode_snapshot_at(b: Seq<u8>, p: int, s: InodeView)
    requires
        0 <= p,
        snapshot_encodable(s),
        p + spec_inode_snapshot_bytes(s).len() <= b.len(),
        b.subrange(p, p + spec_inode_snapshot_bytes(s).len()) == spec_inode_snapshot_bytes(s),
    ensures
        dec_inode_snapshot(b, p) == Some::<(InodeView, int)>(
            (s, p + spec_inode_snapshot_bytes(s).len()),
        ),
    decreases 0int,
{
    lemma_auto_spec_u64_to_from_le_bytes();
    let b1 = spec_u64_to_le_bytes(s.id.0);
    let b2 = spec_opt_id_bytes(s.parent);
    let b3 = spec_string_bytes(s.name);
    let b4 = seq![spec_kind_byte(s.kind)];
    let b5 = spec_u64_to_le_bytes(s.metadata.size);
    let b6 = spec_i128_to_le_bytes(s.metadata.created_at.0);
    let b7 = spec_i128_to_le_bytes(s.metadata.modified_at.0);
    let b8 = spec_extent_list_bytes(s.extents);
    assert(b1.len() == 8);
    lemma_i128_le_bytes_roundtrip(s.metadata.created_at.0);
    lemma_i128_le_bytes_roundtrip(s.metadata.modified_at.0);
    let whole = spec_inode_snapshot_bytes(s);
    assert(whole =~= b1 + (b2 + (b3 + (b4 + (b5 + (b6 + (b7 + b8)))))));
    let p1 = p + b1.len();
    let p2 = p1 + b2.len();
    let p3 = p2 + b3.len();
    let p4 = p3 + b4.len();
    let p5 = p4 + b5.len();
    let p6 = p5 + b6.len();
    let p7 = p6 + b7.len();
    lemma_subrange_split(b, p, b1, b2 + (b3 + (b4 + (b5 + (b6 + (b7 + b8))))));
    lemma_subrange_split(b, p1, b2, b3 + (b4 + (b5 + (b6 + (b7 + b8)))));
    lemma_subrange_split(b, p2, b3, b4 + (b5 + (b6 + (b7 + b8))));
    lemma_subrange_split(b, p3, b4, b5 + (b6 + (b7 + b8)));
    lemma_subrange_split(b, p4, b5, b6 + (b7 + b8));
    lemma_subrange_split(b, p5, b6, b7 + b8);
    lemma_subrange_split(b, p6, b7, b8);
    lemma_dec_u64_at(b, p, s.id.0);
    lemma_dec_opt_id_at(b, p1, s.parent);
    lemma_dec_string_at(b, p2, s.name);
    lemma_dec_kind_at(b, p3, s.kind);
    lemma_dec_u64_at(b, p4, s.metadata.size);
    lemma_dec_i128_at(b, p5, s.metadata.created_at.0);
    lemma_dec_i128_at(b, p6, s.metadata.modified_at.0);
    lemma_dec_extent_list_at(b, p7, s.extents);
}

proof fn lemma_dec_dir_entry_at(b: Seq<u8>, p: int, e: DirEntryView)
    requires
        0 <= p,
        name_encodable(e.name),
        p + spec_dir_entry_bytes(e).len() <= b.len(),
        b.subrange(p, p + spec_dir_entry_bytes(e).len()) == spec_dir_entry_bytes(e),
    ensures
        dec_dir_entry(b, p) == Some::<(DirEntryView, int)>(
            (e, p + spec_dir_entry_bytes(e).len()),
        ),
{
    lemma_auto_spec_u64_to_from_le_bytes();
    let b1 = spec_u64_to_le_bytes(e.parent.0);
    let b2 = spec_u64_to_le_bytes(e.inode.0);
    let b3 = spec_string_bytes(e.name);
    let b4 = seq![spec_kind_byte(e.kind)];
    assert(b1.len() == 8 && b2.len() == 8);
    let whole = spec_dir_entry_bytes(e);
    assert(whole =~= b1 + (b2 + (b3 + b4)));
    lemma_subrange_split(b, p, b1, b2 + (b3 + b4));
    lemma_subrange_split(b, p + 8, b2, b3 + b4);
    lemma_subrange_split(b, p + 16, b3, b4);
    lemma_dec_u64_at(b, p, e.parent.0);
    lemma_dec_u64_at(b, p + 8, e.inode.0);
    lemma_dec_string_at(b, p + 16, e.name);
    lemma_dec_kind_at(b, p + 16 + b3.len(), e.kind);
}

/// Unfold the snapshot-list encoding at the head instead of the tail.
proof fn lemma_snapshot_items_head(ss: Seq<InodeView>)
    requires
        ss.len() > 0,
    ensures
        spec_snapshot_items_bytes(ss) == spec_inode_snapshot_bytes(ss[0])
            + spec_snapshot_items_bytes(ss.drop_first()),
    decreases ss.len(),
{
    if ss.len() == 1 {
        assert(ss.drop_last() =~= Seq::<InodeView>::empty());
        assert(ss.drop_first() =~= Seq::<InodeView>::empty());
        assert(ss.last() == ss[0]);
        assert(spec_snapshot_items_bytes(ss) =~= spec_inode_snapshot_bytes(ss[0])
            + spec_snapshot_items_bytes(ss.drop_first()));
    } else {
        let init = ss.drop_last();
        lemma_snapshot_items_head(init);
        assert(init[0] == ss[0]);
        assert(init.drop_first() =~= ss.drop_first().drop_last());
        assert(ss.drop_first().last() == ss.last());
        assert(spec_snapshot_items_bytes(ss) == (spec_inode_snapshot_bytes(ss[0])
            + spec_snapshot_items_bytes(ss.drop_first().drop_last()))
            + spec_inode_snapshot_bytes(ss.last()));
        assert(spec_snapshot_items_bytes(ss) =~= spec_inode_snapshot_bytes(ss[0])
            + spec_snapshot_items_bytes(ss.drop_first()));
    }
}

proof fn lemma_dec_snapshots_at(b: Seq<u8>, p: int, ss: Seq<InodeView>)
    requires
        0 <= p,
        forall|i: int| 0 <= i < ss.len() ==> snapshot_encodable(#[trigger] ss[i]),
        p + spec_snapshot_items_bytes(ss).len() <= b.len(),
        b.subrange(p, p + spec_snapshot_items_bytes(ss).len()) == spec_snapshot_items_bytes(ss),
    ensures
        dec_snapshots(b, p, ss.len() as int) == Some::<(Seq<InodeView>, int)>(
            (ss, p + spec_snapshot_items_bytes(ss).len()),
        ),
    decreases ss.len(),
{
    if ss.len() == 0 {
        assert(ss =~= Seq::<InodeView>::empty());
    } else {
        lemma_snapshot_items_head(ss);
        let h = spec_inode_snapshot_bytes(ss[0]);
        let t = spec_snapshot_items_bytes(ss.drop_first());
        lemma_subrange_split(b, p, h, t);
        lemma_dec_inode_snapshot_at(b, p, ss[0]);
        assert(forall|i: int|
            0 <= i < ss.drop_first().len() ==> snapshot_encodable(#[trigger] ss.drop_first()[i]));
        lemma_dec_snapshots_at(b, p + h.len(), ss.drop_first());
        assert(seq![ss[0]] + ss.drop_first() =~= ss);
    }
}

proof fn lemma_dec_checkpoint_at(b: Seq<u8>, p: int, cp: CheckpointView)
    requires
        0 <= p,
        cp.free_extents.len() <= u64::MAX,
        cp.inodes.len() <= u64::MAX,
        forall|i: int| 0 <= i < cp.inodes.len() ==> snapshot_encodable(#[trigger] cp.inodes[i]),
        p + spec_checkpoint_bytes(cp).len() <= b.len(),
        b.subrange(p, p + spec_checkpoint_bytes(cp).len()) == spec_checkpoint_bytes(cp),
    ensures
        dec_checkpoint(b, p) == Some::<(CheckpointView, int)>(
            (cp, p + spec_checkpoint_bytes(cp).len()),
        ),
{
    lemma_auto_spec_u64_to_from_le_bytes();
    let b1 = spec_u64_to_le_bytes(cp.next_inode.0);
    let b2 = spec_extent_list_bytes(cp.free_extents);
    let b3 = spec_u64_to_le_bytes(cp.inodes.len() as u64);
    let b4 = spec_snapshot_items_bytes(cp.inodes);
    assert(b1.len() == 8 && b3.len() == 8);
    let whole = spec_checkpoint_bytes(cp);
    assert(whole =~= b1 + (b2 + (b3 + b4)));
    lemma_subrange_split(b, p, b1, b2 + (b3 + b4));
    lemma_subrange_split(b, p + 8, b2, b3 + b4);
    lemma_subrange_split(b, p + 8 + b2.len(), b3, b4);
    lemma_dec_u64_at(b, p, cp.next_inode.0);
    lemma_dec_extent_list_at(b, p + 8, cp.free_extents);
    lemma_dec_u64_at(b, p + 8 + b2.len(), cp.inodes.len() as u64);
    lemma_dec_snapshots_at(b, p + 8 + b2.len() + 8, cp.inodes);
}

/// Round trip of a whole record payload: decoding the tagged encoding of
/// any encodable self-contained record yields that record.
#[verifier::rlimit(100)]
pub proof fn lemma_record_payload_roundtrip(r: RecordView)
    requires
        record_encodable(r),
        !(r is DataWrite),
    ensures
        spec_decode_record_payload(seq![spec_record_tag(r)] + spec_record_body(r)) == Some(r),
{
    lemma_auto_spec_u64_to_from_le_bytes();
    let tag = spec_record_tag(r);
    let body = spec_record_body(r);
    let payload = seq![tag] + body;
    assert(payload.subrange(0, 1) =~= seq![tag]);
    lemma_dec_u8_at(payload, 0, tag);
    assert(payload.subrange(1, 1 + body.len() as int) =~= body);
    match r {
        RecordView::InodeAlloc(s) => {
            lemma_dec_inode_snapshot_at(payload, 1, s);
        },
        RecordView::DirEntryAdd { entry } => {
            lemma_dec_dir_entry_at(payload, 1, entry);
        },
        RecordView::Truncate { inode, len } => {
            lemma_subrange_split(
                payload,
                1,
                spec_u64_to_le_bytes(inode.0),
                spec_u64_to_le_bytes(len),
            );
            lemma_dec_u64_at(payload, 1, inode.0);
            lemma_dec_u64_at(payload, 9, len);
        },
        RecordView::SetTimes { inode, created_at, modified_at } => {
            let b1 = spec_u64_to_le_bytes(inode.0);
            let b2 = spec_opt_ts_bytes(created_at);
            let b3 = spec_opt_ts_bytes(modified_at);
            assert(body =~= b1 + (b2 + b3));
            lemma_subrange_split(payload, 1, b1, b2 + b3);
            lemma_subrange_split(payload, 9, b2, b3);
            lemma_dec_u64_at(payload, 1, inode.0);
            lemma_dec_opt_ts_at(payload, 9, created_at);
            lemma_dec_opt_ts_at(payload, 9 + b2.len() as int, modified_at);
        },
        RecordView::DirEntryRemove { parent, name, inode } => {
            let b1 = spec_u64_to_le_bytes(parent.0);
            let b2 = spec_string_bytes(name);
            let b3 = spec_u64_to_le_bytes(inode.0);
            assert(body =~= b1 + (b2 + b3));
            lemma_subrange_split(payload, 1, b1, b2 + b3);
            lemma_subrange_split(payload, 9, b2, b3);
            lemma_dec_u64_at(payload, 1, parent.0);
            lemma_dec_string_at(payload, 9, name);
            lemma_dec_u64_at(payload, 9 + b2.len() as int, inode.0);
        },
        RecordView::Rename { inode, old_parent, new_parent, old_name, new_name } => {
            let b1 = spec_u64_to_le_bytes(inode.0);
            let b2 = spec_u64_to_le_bytes(old_parent.0);
            let b3 = spec_u64_to_le_bytes(new_parent.0);
            let b4 = spec_string_bytes(old_name);
            let b5 = spec_string_bytes(new_name);
            assert(body =~= b1 + (b2 + (b3 + (b4 + b5))));
            lemma_subrange_split(payload, 1, b1, b2 + (b3 + (b4 + b5)));
            lemma_subrange_split(payload, 9, b2, b3 + (b4 + b5));
            lemma_subrange_split(payload, 17, b3, b4 + b5);
            lemma_subrange_split(payload, 25, b4, b5);
            lemma_dec_u64_at(payload, 1, inode.0);
            lemma_dec_u64_at(payload, 9, old_parent.0);
            lemma_dec_u64_at(payload, 17, new_parent.0);
            lemma_dec_string_at(payload, 25, old_name);
            lemma_dec_string_at(payload, 25 + b4.len() as int, new_name);
        },
        RecordView::Checkpoint(cp) => {
            lemma_dec_checkpoint_at(payload, 1, cp);
        },
        RecordView::DataWrite { .. } => {},
    }
}

// ---------------------------------------------------------------------
// Frame-level facts: where a frame sits in the log and what parsing
// finds there.
// ---------------------------------------------------------------------
/// Bounds on the offsets a successful parse reports: the next offset
/// lies strictly beyond the current one and within the data, and a
/// `DataWrite`'s data offset is exactly 45 bytes into its frame.
pub proof fn lemma_parse_rec_bounds(data: Seq<u8>, off: int)
    ensures
        parse_frame(data, off) matches ParseStep::Rec { rec, data_off, next } ==> {
            &&& off + 17 <= next <= data.len()
            &&& match data_off {
                Some(o) => o == off + 45 && o <= next,
                None => true,
            }
        },
{
}

/// Parsing sees only the bytes of the frame itself: extending the data
/// beyond a complete frame, or cutting it anywhere past the frame's end,
/// leaves the outcome unchanged.
#[verifier::rlimit(100)]
pub proof fn lemma_parse_frame_prefix(d1: Seq<u8>, d2: Seq<u8>, off: int)
    requires
        0 <= off,
        d1.len() <= d2.len(),
        forall|i: int| 0 <= i < d1.len() ==> d1[i] == d2[i],
    ensures
        parse_frame(d1, off) matches ParseStep::Rec { .. } ==> parse_frame(d2, off)
            == parse_frame(d1, off),
        (parse_frame(d2, off) matches ParseStep::Rec { rec, data_off, next } && next <= d1.len())
            ==> parse_frame(d1, off) == parse_frame(d2, off),
{
    assert forall|a: int, b: int|
        0 <= a && a <= b && b <= d1.len() implies #[trigger] d1.subrange(a, b) == d2.subrange(
        a,
        b,
    ) by {
        assert(d1.subrange(a, b) =~= d2.subrange(a, b));
    }
    lemma_parse_rec_bounds(d1, off);
    lemma_parse_rec_bounds(d2, off);
}

/// A complete self-contained frame placed in the log parses back to the
/// record it was built from, with the following frame starting right
/// after it.
#[verifier::rlimit(100)]
pub proof fn lemma_parse_frame_at(data: Seq<u8>, off: int, r: RecordView)
    requires
        0 <= off,
        record_encodable(r),
        !(r is DataWrite),
        off + spec_frame_bytes(r).len() <= data.len(),
        data.subrange(off, off + spec_frame_bytes(r).len()) == spec_frame_bytes(r),
    ensures
        parse_frame(data, off) == (ParseStep::Rec {
            rec: r,
            data_off: None,
            next: off + spec_frame_bytes(r).len(),
        }),
        spec_frame_bytes(r).len() == 17 + spec_record_body(r).len(),
{
    lemma_auto_spec_u64_to_from_le_bytes();
    lemma_auto_spec_u32_to_from_le_bytes();
    let tag = spec_record_tag(r);
    let body = spec_record_body(r);
    let payload = seq![tag] + body;
    let rec_len_u = (payload.len() + 4) as u64;
    let lenb = spec_u64_to_le_bytes(rec_len_u);
    let pre = spec_record_magic() + lenb + payload;
    let crcb = spec_u32_to_le_bytes(crc32_of(pre));
    let frame = spec_frame_bytes(r);
    assert(lenb.len() == 8 && crcb.len() == 4);
    assert(frame =~= spec_record_magic() + (lenb + (payload + crcb)));
    lemma_subrange_split(data, off, spec_record_magic(), lenb + (payload + crcb));
    lemma_subrange_split(data, off + 4, lenb, payload + crcb);
    lemma_subrange_split(data, off + 12, payload, crcb);
    assert(rec_len_u as int == payload.len() + 4);
    assert(data[off + 12] == data.subrange(off + 12, off + 12 + payload.len() as int)[0]);
    assert(data[off + 12] == tag);
    assert(tag != 3);
    assert(data.subrange(off, off + 12 + payload.len() as int) =~= pre);
    lemma_record_payload_roundtrip(r);
}

/// A complete `DataWrite` frame placed in the log parses back to the
/// record describing its data, and the reported data offset points at
/// the embedded bytes.
#[verifier::rlimit(100)]
pub proof fn lemma_parse_data_frame_at(
    data: Seq<u8>,
    off: int,
    inode: InodeId,
    logical_offset: u64,
    bytes: Seq<u8>,
)
    requires
        0 <= off,
        bytes.len() + 45 <= u64::MAX,
        off + spec_data_frame_bytes(inode, logical_offset, bytes).len() <= data.len(),
        data.subrange(off, off + spec_data_frame_bytes(inode, logical_offset, bytes).len())
            == spec_data_frame_bytes(inode, logical_offset, bytes),
    ensures
        parse_frame(data, off) == (ParseStep::Rec {
            rec: spec_data_write_view(inode, logical_offset, bytes),
            data_off: Some(off + 45),
            next: off + 45 + bytes.len(),
        }),
        spec_data_frame_bytes(inode, logical_offset, bytes).len() == 45 + bytes.len(),
        data.subrange(off + 45, off + 45 + bytes.len() as int) == bytes,
{
    lemma_auto_spec_u64_to_from_le_bytes();
    lemma_auto_spec_u32_to_from_le_bytes();
    let b_ino = spec_u64_to_le_bytes(inode.0);
    let b_lo = spec_u64_to_le_bytes(logical_offset);
    let b_dl = spec_u64_to_le_bytes(bytes.len() as u64);
    let b_dc = spec_u32_to_le_bytes(crc32_of(bytes));
    let payload = seq![3u8] + b_ino + b_lo + b_dl + b_dc;
    let rec_len_u = (payload.len() + 4 + bytes.len()) as u64;
    let lenb = spec_u64_to_le_bytes(rec_len_u);
    let pre = spec_record_magic() + lenb + payload;
    let crcb = spec_u32_to_le_bytes(crc32_of(pre));
    let frame = spec_data_frame_bytes(inode, logical_offset, bytes);
    assert(payload.len() == 29);
    assert(frame =~= spec_record_magic() + (lenb + (seq![3u8] + (b_ino + (b_lo + (b_dl + (b_dc + (
    crcb + bytes))))))));
    lemma_subrange_split(data, off, spec_record_magic(), lenb + (seq![3u8] + (b_ino + (b_lo + (b_dl
        + (b_dc + (crcb + bytes)))))));
    lemma_subrange_split(data, off + 4, lenb, seq![3u8] + (b_ino + (b_lo + (b_dl + (b_dc + (crcb
        + bytes))))));
    lemma_subrange_split(data, off + 12, seq![3u8], b_ino + (b_lo + (b_dl + (b_dc + (crcb
        + bytes)))));
    lemma_subrange_split(data, off + 13, b_ino, b_lo + (b_dl + (b_dc + (crcb + bytes))));
    lemma_subrange_split(data, off + 21, b_lo, b_dl + (b_dc + (crcb + bytes)));
    lemma_subrange_split(data, off + 29, b_dl, b_dc + (crcb + bytes));
    lemma_subrange_split(data, off + 37, b_dc, crcb + bytes);
    lemma_subrange_split(data, off + 41, crcb, bytes);
    assert(data[off + 12] == data.subrange(off + 12, off + 13)[0]);
    assert(data[off + 12] == 3u8);
    assert(data.subrange(off, off + 41) =~= pre);
    assert(rec_len_u as int == 33 + bytes.len());
}

/// Decode the `Rename` body: inode, both parents, both names.
pub open spec fn dec_rename(b: Seq<u8>, p: int) -> Option<
    ((InodeId, InodeId, InodeId, Seq<char>, Seq<char>), int),
> {
    match dec_u64(b, p) {
        Some((ino, q1)) => match dec_u64(b, q1) {
            Some((op, q2)) => match dec_u64(b, q2) {
                Some((np, q3)) => match dec_string(b, q3) {
                    Some((on, q4)) => match dec_string(b, q4) {
                        Some((nn, q5)) => Some(
                            ((InodeId(ino), InodeId(op), InodeId(np), on, nn), q5),
                        ),
                        None => None,
                    },
                    None => None,
                },
                None => None,
            },
            None => None,
        },
        None => None,
    }
}

} // verus!
