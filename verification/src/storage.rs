//! The fixed-size superblock: a small self-describing block that names
//! where a snapshot lives. It is byte-exact: a 4-byte magic, fixed-width
//! little-endian fields, and zero padding up to 64 bytes.

use vstd::bytes::{
    lemma_auto_spec_u32_to_from_le_bytes, lemma_auto_spec_u64_to_from_le_bytes,
    spec_u32_from_le_bytes, spec_u32_to_le_bytes, spec_u64_from_le_bytes, spec_u64_to_le_bytes,
    u32_from_le_bytes, u32_to_le_bytes, u64_from_le_bytes, u64_to_le_bytes,
};
use vstd::prelude::*;
use vstd::slice::slice_subrange;

use crate::no_sql::lemma_subrange_split;
use crate::structs::VfsError;

verus! {

/// First byte of the superblock magic `RVFS`.
pub const SB_MAGIC_0: u8 = 82;

/// Second byte of the superblock magic `RVFS`.
pub const SB_MAGIC_1: u8 = 86;

/// Third byte of the superblock magic `RVFS`.
pub const SB_MAGIC_2: u8 = 70;

/// Fourth byte of the superblock magic `RVFS`.
pub const SB_MAGIC_3: u8 = 83;

/// The supported superblock version.
pub const SB_VERSION: u32 = 1;

/// The fixed size of an encoded superblock.
pub const SB_SIZE: usize = 64;

/// The superblock: where the current snapshot lives.
#[derive(Debug, Clone, PartialEq, Eq, Structural)]
pub struct Superblock {
    pub version: u32,
    pub generation: u64,
    pub snapshot_offset: u64,
    pub snapshot_len: u64,
    pub snapshot_crc32: u32,
}

/// The superblock magic bytes.
pub open spec fn spec_sb_magic() -> Seq<u8> {
    seq![SB_MAGIC_0, SB_MAGIC_1, SB_MAGIC_2, SB_MAGIC_3]
}

/// The 64 bytes a superblock encodes to: magic, fields, zero padding.
pub open spec fn spec_superblock_bytes(sb: Superblock) -> Seq<u8> {
    spec_sb_magic() + spec_u32_to_le_bytes(sb.version) + spec_u64_to_le_bytes(sb.generation)
        + spec_u64_to_le_bytes(sb.snapshot_offset) + spec_u64_to_le_bytes(sb.snapshot_len)
        + spec_u32_to_le_bytes(sb.snapshot_crc32) + Seq::new(28, |i: int| 0u8)
}

impl Superblock {
    /// The placeholder superblock that points at no snapshot.
    pub fn invalid() -> (r: Superblock)
        ensures
            r == (Superblock {
                version: SB_VERSION,
                generation: 0,
                snapshot_offset: 0,
                snapshot_len: 0,
                snapshot_crc32: 0,
            }),
    {
        Superblock {
            version: SB_VERSION,
            generation: 0,
            snapshot_offset: 0,
            snapshot_len: 0,
            snapshot_crc32: 0,
        }
    }

    /// Encode into the fixed 64-byte form.
    pub fn encode_fixed(&self) -> (r: Vec<u8>)
        ensures
            r@ == spec_superblock_bytes(*self),
            r@.len() == 64,
    {
        proof {
            lemma_auto_spec_u32_to_from_le_bytes();
            lemma_auto_spec_u64_to_from_le_bytes();
            assert(spec_u32_to_le_bytes(self.version).len() == 4);
            assert(spec_u64_to_le_bytes(self.generation).len() == 8);
        }
        let mut out: Vec<u8> = Vec::new();
        out.push(SB_MAGIC_0);
        out.push(SB_MAGIC_1);
        out.push(SB_MAGIC_2);
        out.push(SB_MAGIC_3);
        let mut b = u32_to_le_bytes(self.version);
        out.append(&mut b);
        let mut b = u64_to_le_bytes(self.generation);
        out.append(&mut b);
        let mut b = u64_to_le_bytes(self.snapshot_offset);
        out.append(&mut b);
        let mut b = u64_to_le_bytes(self.snapshot_len);
        out.append(&mut b);
        let mut b = u32_to_le_bytes(self.snapshot_crc32);
        out.append(&mut b);
        let mut i: usize = 0;
        while i < 28
            invariant
                i <= 28,
                out@.len() == 36 + i,
                out@ =~= spec_sb_magic() + spec_u32_to_le_bytes(self.version)
                    + spec_u64_to_le_bytes(self.generation) + spec_u64_to_le_bytes(
                    self.snapshot_offset,
                ) + spec_u64_to_le_bytes(self.snapshot_len) + spec_u32_to_le_bytes(
                    self.snapshot_crc32,
                ) + Seq::new(i as nat, |j: int| 0u8),
            decreases 28 - i,
        {
            out.push(0);
            proof {
                assert(Seq::new(i as nat + 1, |j: int| 0u8) =~= Seq::new(
                    i as nat,
                    |j: int| 0u8,
                ).push(0u8));
            }
            i = i + 1;
        }
        proof {
            assert(out@ =~= spec_superblock_bytes(*self));
        }
        out
    }

    /// Decode the fixed 64-byte form, validating the magic.
    pub fn decode_fixed(data: &[u8]) -> (r: Result<Superblock, VfsError>)
        requires
            data@.len() == 64,
        ensures
            match r {
                Ok(sb) => {
                    &&& data@.subrange(0, 4) == spec_sb_magic()
                    &&& sb.version == spec_u32_from_le_bytes(data@.subrange(4, 8))
                    &&& sb.generation == spec_u64_from_le_bytes(data@.subrange(8, 16))
                    &&& sb.snapshot_offset == spec_u64_from_le_bytes(data@.subrange(16, 24))
                    &&& sb.snapshot_len == spec_u64_from_le_bytes(data@.subrange(24, 32))
                    &&& sb.snapshot_crc32 == spec_u32_from_le_bytes(data@.subrange(32, 36))
                },
                Err(e) => e is CorruptLog && data@.subrange(0, 4) != spec_sb_magic(),
            },
    {
        let magic_ok = *vstd::slice::slice_index_get(data, 0) == SB_MAGIC_0
            && *vstd::slice::slice_index_get(data, 1) == SB_MAGIC_1
            && *vstd::slice::slice_index_get(data, 2) == SB_MAGIC_2
            && *vstd::slice::slice_index_get(data, 3) == SB_MAGIC_3;
        if !magic_ok {
            proof {
                assert(data@.subrange(0, 4) != spec_sb_magic());
            }
            return Err(VfsError::CorruptLog("invalid superblock magic".to_owned()));
        }
        proof {
            assert(data@.subrange(0, 4) =~= spec_sb_magic());
        }
        let version = u32_from_le_bytes(slice_subrange(data, 4, 8));
        let generation = u64_from_le_bytes(slice_subrange(data, 8, 16));
        let snapshot_offset = u64_from_le_bytes(slice_subrange(data, 16, 24));
        let snapshot_len = u64_from_le_bytes(slice_subrange(data, 24, 32));
        let snapshot_crc32 = u32_from_le_bytes(slice_subrange(data, 32, 36));
        Ok(Superblock { version, generation, snapshot_offset, snapshot_len, snapshot_crc32 })
    }
}

/// Round trip: decoding an encoded superblock recovers it exactly.
pub proof fn lemma_superblock_roundtrip(sb: Superblock, data: Seq<u8>)
    requires
        data == spec_superblock_bytes(sb),
    ensures
        data.len() == 64,
        data.subrange(0, 4) == spec_sb_magic(),
        spec_u32_from_le_bytes(data.subrange(4, 8)) == sb.version,
        spec_u64_from_le_bytes(data.subrange(8, 16)) == sb.generation,
        spec_u64_from_le_bytes(data.subrange(16, 24)) == sb.snapshot_offset,
        spec_u64_from_le_bytes(data.subrange(24, 32)) == sb.snapshot_len,
        spec_u32_from_le_bytes(data.subrange(32, 36)) == sb.snapshot_crc32,
{
    lemma_auto_spec_u32_to_from_le_bytes();
    lemma_auto_spec_u64_to_from_le_bytes();
    let b1 = spec_sb_magic();
    let b2 = spec_u32_to_le_bytes(sb.version);
    let b3 = spec_u64_to_le_bytes(sb.generation);
    let b4 = spec_u64_to_le_bytes(sb.snapshot_offset);
    let b5 = spec_u64_to_le_bytes(sb.snapshot_len);
    let b6 = spec_u32_to_le_bytes(sb.snapshot_crc32);
    let b7 = Seq::new(28, |i: int| 0u8);
    assert(data =~= b1 + (b2 + (b3 + (b4 + (b5 + (b6 + b7))))));
    assert(data.subrange(0, 64) =~= data);
    lemma_subrange_split(data, 0, b1, b2 + (b3 + (b4 + (b5 + (b6 + b7)))));
    lemma_subrange_split(data, 4, b2, b3 + (b4 + (b5 + (b6 + b7))));
    lemma_subrange_split(data, 8, b3, b4 + (b5 + (b6 + b7)));
    lemma_subrange_split(data, 16, b4, b5 + (b6 + b7));
    lemma_subrange_split(data, 24, b5, b6 + b7);
    lemma_subrange_split(data, 32, b6, b7);
}

} // verus!
