//! File handles: a cursor over one file of a mount.
//!
//! A handle holds only the inode id, a cursor and a writable flag; it
//! borrows the mount for every operation, so a handle can never outlive
//! or bypass the mount that issued it.

use vstd::prelude::*;

use crate::structs::{InodeId, NodeKind, VfsError};
use crate::vfs::Vfs;

verus! {

/// Where a seek starts from.
pub enum SeekFrom {
    Start(u64),
    End(i64),
    Current(i64),
}

/// A cursor over one file of a mount.
pub struct VfsFile {
    inode: InodeId,
    cursor: u64,
    writable: bool,
}

impl VfsFile {
    /// The file's inode id.
    pub closed spec fn inode(&self) -> InodeId {
        self.inode
    }

    /// The cursor position.
    pub closed spec fn cursor(&self) -> u64 {
        self.cursor
    }

    /// Whether writes are allowed.
    pub closed spec fn is_writable(&self) -> bool {
        self.writable
    }

    /// A fresh handle at position zero.
    pub(crate) fn new(inode: InodeId, writable: bool) -> (r: VfsFile)
        ensures
            r.inode() == inode,
            r.cursor() == 0,
            r.is_writable() == writable,
    {
        VfsFile { inode, cursor: 0, writable }
    }

    /// The file's logical size.
    pub fn len(&self, fs: &Vfs) -> (r: Result<u64, VfsError>)
        requires
            fs.wf(),
        ensures
            match r {
                Ok(sz) => {
                    &&& fs.ns().inodes.dom().contains(self.inode().0)
                    &&& fs.ns().inodes[self.inode().0].kind == NodeKind::File
                    &&& sz == fs.ns().inodes[self.inode().0].metadata.size
                },
                Err(e) => match e {
                    VfsError::NotFound(_) => !fs.ns().inodes.dom().contains(self.inode().0),
                    VfsError::NotAFile(_) => fs.ns().inodes.dom().contains(self.inode().0)
                        && fs.ns().inodes[self.inode().0].kind != NodeKind::File,
                    _ => false,
                },
            },
    {
        fs.len(self.inode)
    }

    /// Whether the file is empty.
    pub fn is_empty(&self, fs: &Vfs) -> (r: Result<bool, VfsError>)
        requires
            fs.wf(),
        ensures
            match r {
                Ok(b) => {
                    &&& fs.ns().inodes.dom().contains(self.inode().0)
                    &&& fs.ns().inodes[self.inode().0].kind == NodeKind::File
                    &&& b == (fs.ns().inodes[self.inode().0].metadata.size == 0)
                },
                Err(e) => match e {
                    VfsError::NotFound(_) => !fs.ns().inodes.dom().contains(self.inode().0),
                    VfsError::NotAFile(_) => fs.ns().inodes.dom().contains(self.inode().0)
                        && fs.ns().inodes[self.inode().0].kind != NodeKind::File,
                    _ => false,
                },
            },
    {
        match self.len(fs) {
            Ok(sz) => Ok(sz == 0),
            Err(e) => Err(e),
        }
    }

    /// Set the file's logical size.
    pub fn set_len(&mut self, fs: &mut Vfs, len: u64) -> (r: Result<(), VfsError>)
        requires
            old(fs).wf(),
        ensures
            final(fs).wf(),
            final(fs).root_id() == old(fs).root_id(),
            final(fs).next_id() == old(fs).next_id(),
            *final(self) == *old(self),
            match r {
                Ok(()) => {
                    &&& old(fs).ns().inodes.dom().contains(old(self).inode().0)
                    &&& old(fs).ns().inodes[old(self).inode().0].kind == NodeKind::File
                    &&& crate::vfs::truncate_committed(
                        old(fs).ns(),
                        old(fs).store_bytes(),
                        final(fs).ns(),
                        final(fs).store_bytes(),
                        old(self).inode().0,
                        len,
                    )
                },
                Err(e) => {
                    &&& final(fs).ns() == old(fs).ns()
                    &&& final(fs).store_bytes() == old(fs).store_bytes()
                    &&& match e {
                        VfsError::NotFound(_) => !old(fs).ns().inodes.dom().contains(
                            old(self).inode().0,
                        ),
                        VfsError::NotAFile(_) => old(fs).ns().inodes.dom().contains(
                            old(self).inode().0,
                        ) && old(fs).ns().inodes[old(self).inode().0].kind != NodeKind::File,
                        VfsError::Io(_) => !(old(fs).store_bytes().len() + 150 <= u64::MAX),
                        _ => false,
                    }
                },
            },
    {
        fs.truncate(self.inode, len)
    }

    /// Read up to `n` bytes at the cursor and advance it by what came
    /// back.
    pub fn read(&mut self, fs: &Vfs, n: usize) -> (r: Result<Vec<u8>, VfsError>)
        requires
            fs.wf(),
        ensures
            final(self).inode() == old(self).inode(),
            final(self).is_writable() == old(self).is_writable(),
            match r {
                Ok(v) => {
                    &&& fs.ns().inodes.dom().contains(old(self).inode().0)
                    &&& fs.ns().inodes[old(self).inode().0].kind == NodeKind::File
                    &&& v@.len() == crate::vfs::read_len(
                        fs.ns(),
                        old(self).inode().0,
                        old(self).cursor(),
                        n as int,
                    )
                    &&& forall|i: int|
                        0 <= i < v@.len() ==> v@[i] == crate::vfs::extent_byte(
                            fs.ns().inodes[old(self).inode().0].extents,
                            fs.store_bytes(),
                            old(self).cursor() + i,
                        )
                    &&& final(self).cursor() == old(self).cursor() + v@.len()
                },
                Err(e) => *final(self) == *old(self) && match e {
                    VfsError::NotFound(_) => !fs.ns().inodes.dom().contains(old(self).inode().0),
                    VfsError::NotAFile(_) => fs.ns().inodes.dom().contains(old(self).inode().0)
                        && fs.ns().inodes[old(self).inode().0].kind != NodeKind::File,
                    VfsError::Io(_) => fs.ns().inodes.dom().contains(old(self).inode().0)
                        && fs.ns().inodes[old(self).inode().0].kind == NodeKind::File && exists|
                        p: int,
                    |
                        old(self).cursor() <= p < old(self).cursor() + crate::vfs::read_len(
                            fs.ns(),
                            old(self).inode().0,
                            old(self).cursor(),
                            n as int,
                        ) && !crate::vfs::extent_src_ok(
                            fs.ns().inodes[old(self).inode().0].extents,
                            fs.store_bytes(),
                            p,
                        ),
                    _ => false,
                },
            },
    {
        let v = match fs.read_at(self.inode, self.cursor, n) {
            Ok(v) => v,
            Err(e) => {
                return Err(e);
            },
        };
        // The read never passes the logical size, which fits in u64.
        self.cursor = self.cursor + v.len() as u64;
        Ok(v)
    }

    /// Write a buffer at the cursor and advance it; the handle must be
    /// writable.
    pub fn write(&mut self, fs: &mut Vfs, buf: &[u8]) -> (r: Result<usize, VfsError>)
        requires
            old(fs).wf(),
            buf@.len() + old(self).cursor() <= u64::MAX,
        ensures
            final(fs).wf(),
            final(self).inode() == old(self).inode(),
            final(self).is_writable() == old(self).is_writable(),
            !old(self).is_writable() ==> (r matches Err(e) && e is Io && *final(self) == *old(
                self,
            ) && final(fs).ns() == old(fs).ns()),
            match r {
                Ok(nw) => {
                    &&& old(self).is_writable()
                    &&& old(fs).ns().inodes.dom().contains(old(self).inode().0)
                    &&& old(fs).ns().inodes[old(self).inode().0].kind == NodeKind::File
                    &&& nw == buf@.len()
                    &&& final(self).cursor() == old(self).cursor() + buf@.len()
                    &&& crate::vfs::write_committed(
                        old(fs).ns(),
                        old(fs).store_bytes(),
                        final(fs).ns(),
                        final(fs).store_bytes(),
                        old(self).inode().0,
                        old(self).cursor(),
                        buf@,
                    )
                },
                Err(e) => {
                    &&& *final(self) == *old(self)
                    &&& final(fs).ns() == old(fs).ns()
                    &&& final(fs).store_bytes() == old(fs).store_bytes()
                    &&& match e {
                        VfsError::NotFound(_) => old(self).is_writable() && !old(
                            fs,
                        ).ns().inodes.dom().contains(old(self).inode().0),
                        VfsError::NotAFile(_) => old(self).is_writable() && old(
                            fs,
                        ).ns().inodes.dom().contains(old(self).inode().0) && old(
                            fs,
                        ).ns().inodes[old(self).inode().0].kind != NodeKind::File,
                        VfsError::Io(_) => !old(self).is_writable() || !(old(
                            fs,
                        ).store_bytes().len() + buf@.len() + 150 <= u64::MAX),
                        _ => false,
                    }
                },
            },
    {
        if !self.writable {
            return Err(VfsError::Io("file not opened for writing".to_owned()));
        }
        let n = match fs.write_at(self.inode, self.cursor, buf) {
            Ok(n) => n,
            Err(e) => {
                return Err(e);
            },
        };
        self.cursor = self.cursor + n as u64;
        Ok(n)
    }

    /// The cursor's current position.
    pub fn stream_position(&self) -> (r: u64)
        ensures
            r == self.cursor(),
    {
        self.cursor
    }

    /// Flushing is a no-op: every write is already in the store.
    pub fn flush(&mut self) -> (r: Result<(), VfsError>)
        ensures
            r is Ok,
            *final(self) == *old(self),
    {
        Ok(())
    }

    /// Move the cursor; out-of-range targets saturate at zero and at
    /// the largest offset. Returns the new position.
    pub fn seek(&mut self, fs: &Vfs, pos: SeekFrom) -> (r: Result<u64, VfsError>)
        requires
            fs.wf(),
        ensures
            final(self).inode() == old(self).inode(),
            final(self).is_writable() == old(self).is_writable(),
            match r {
                Ok(p) => {
                    &&& fs.ns().inodes.dom().contains(old(self).inode().0)
                    &&& fs.ns().inodes[old(self).inode().0].kind == NodeKind::File
                    &&& p == final(self).cursor()
                    &&& {
                        let size = fs.ns().inodes[old(self).inode().0].metadata.size;
                        match pos {
                            SeekFrom::Start(o) => p == o,
                            SeekFrom::End(d) => if d >= 0 {
                                p == crate::vfs::sat_add_u64(size, d as u64)
                            } else {
                                p == if size >= (-(d as int)) as u64 {
                                    (size - (-(d as int)) as u64) as u64
                                } else {
                                    0u64
                                }
                            },
                            SeekFrom::Current(d) => if d >= 0 {
                                p == crate::vfs::sat_add_u64(old(self).cursor(), d as u64)
                            } else {
                                p == if old(self).cursor() >= (-(d as int)) as u64 {
                                    (old(self).cursor() - (-(d as int)) as u64) as u64
                                } else {
                                    0u64
                                }
                            },
                        }
                    }
                },
                Err(e) => *final(self) == *old(self) && match e {
                    VfsError::NotFound(_) => !fs.ns().inodes.dom().contains(old(self).inode().0),
                    VfsError::NotAFile(_) => fs.ns().inodes.dom().contains(old(self).inode().0)
                        && fs.ns().inodes[old(self).inode().0].kind != NodeKind::File,
                    _ => false,
                },
            },
    {
        let len = match fs.len(self.inode) {
            Ok(l) => l,
            Err(e) => {
                return Err(e);
            },
        };
        let next = match pos {
            SeekFrom::Start(o) => o,
            SeekFrom::End(d) => {
                if d >= 0 {
                    match len.checked_add(d as u64) {
                        Some(v) => v,
                        None => u64::MAX,
                    }
                } else {
                    let back = (-(d as i128)) as u64;
                    if len >= back {
                        len - back
                    } else {
                        0
                    }
                }
            },
            SeekFrom::Current(d) => {
                if d >= 0 {
                    match self.cursor.checked_add(d as u64) {
                        Some(v) => v,
                        None => u64::MAX,
                    }
                } else {
                    let back = (-(d as i128)) as u64;
                    if self.cursor >= back {
                        self.cursor - back
                    } else {
                        0
                    }
                }
            },
        };
        self.cursor = next;
        Ok(self.cursor)
    }
}

} // verus!
