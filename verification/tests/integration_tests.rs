use virtual_file_system::file_ops::SeekFrom;
use virtual_file_system::no_sql::{read_next_record, write_header, write_record};
use virtual_file_system::structs::{InodeId, InodeSnapshot, Metadata, NodeKind, Record, Timestamp};
use virtual_file_system::Vfs;

fn fresh() -> Vfs {
    Vfs::mount(Vec::new()).expect("init")
}

fn remount(v: Vfs) -> Vfs {
    Vfs::mount(v.into_store()).expect("remount")
}

fn read_all(v: &Vfs, path: &str) -> Vec<u8> {
    let mut f = v.open_file(path).expect("open");
    let mut out = Vec::new();
    loop {
        let chunk = f.read(v, 4096).expect("read");
        if chunk.is_empty() {
            break;
        }
        out.extend_from_slice(&chunk);
    }
    out
}

#[test]
fn record_roundtrip_inode_alloc() {
    let mut store: Vec<u8> = Vec::new();
    write_header(&mut store, 4096, InodeId(1)).expect("failed to write header");

    let now = Timestamp::now();
    let snap = InodeSnapshot {
        id: InodeId(1),
        parent: None,
        name: "".to_string(),
        kind: NodeKind::Dir,
        metadata: Metadata {
            size: 0,
            created_at: now,
            modified_at: now,
        },
        extents: vec![],
    };

    write_record(&mut store, &Record::InodeAlloc(snap)).expect("failed to write record");

    let off: u32 = 24;
    let got = match read_next_record(&store, off as u64) {
        Ok(Some((rec, _))) => rec,
        Ok(None) => panic!("no record found"),
        Err(e) => panic!("failed to read record: {:?}", e),
    };

    match &got.record {
        Record::InodeAlloc(s) => assert_eq!(s.id.0, 1),
        _ => panic!("wrong record"),
    }
}

#[test]
fn can_init_and_reopen() {
    let v1 = Vfs::mount(Vec::new()).expect("init");
    let _v2 = Vfs::mount(v1.into_store()).expect("reopen");
}

#[test]
fn create_dir_check_reopen() {
    let mut v1 = fresh();
    v1.create_dir("rs").expect("create_dir failed");

    let mut v2 = remount(v1);
    let err = v2.create_dir("rs").unwrap_err();
    assert!(matches!(
        err,
        virtual_file_system::VfsError::AlreadyExists(_)
    ));
}

#[test]
fn read_dir_lists_children() {
    let mut v = fresh();
    v.create_dir("rs").expect("create_dir failed");
    v.create_dir("rs/a").expect("create_dir failed");
    v.create_dir("rs/b").expect("create_dir failed");

    let mut dir = v.read_dir("rs").expect("read_dir failed");
    let mut names = vec![];
    while let Some(e) = dir.next() {
        names.push(e.name);
    }
    assert_eq!(names, vec!["a".to_string(), "b".to_string()]);
}

#[test]
fn example_like_assignment() {
    let mut vfs = fresh();
    vfs.create_dir("rs").unwrap();

    {
        let mut f1 = vfs.create("rs/abc.txt").unwrap();
        f1.write(&mut vfs, b"bafta ").unwrap();
        let mut f2 = vfs.create("rs/def.txt").unwrap();
        f2.write(&mut vfs, b"frate").unwrap();
    }

    let vfs2 = remount(vfs);

    let mut total = String::new();
    let mut dir = vfs2.read_dir("rs").unwrap();
    while let Some(entry) = dir.next() {
        let mut path = String::from("rs/");
        path.push_str(&entry.name);
        let bytes = read_all(&vfs2, &path);
        total.push_str(&String::from_utf8(bytes).unwrap());
    }

    assert_eq!(total, "bafta frate");
}

#[test]
fn truncate_persists() {
    let mut v = fresh();
    v.create_dir("rs").unwrap();

    let mut f = v.create("rs/a.txt").unwrap();
    f.write(&mut v, b"hello world").unwrap();
    f.set_len(&mut v, 5).unwrap();
    drop(f);

    let v2 = remount(v);
    let s = read_all(&v2, "rs/a.txt");
    assert_eq!(s, b"hello".to_vec());
}

#[test]
fn modified_time_persists_and_is_not_mount_time() {
    let mut v = fresh();
    v.create_dir("rs").unwrap();

    let t0 = v.metadata("rs").unwrap().modified_at;

    let mut f = v.create("rs/a.txt").unwrap();
    f.write(&mut v, b"hello").unwrap();
    drop(f);

    let t1 = v.metadata("rs/a.txt").unwrap().modified_at;
    assert!(t1 >= t0);

    let v2 = remount(v);

    let t1b = v2.metadata("rs/a.txt").unwrap().modified_at;
    assert_eq!(t1b, t1);
}

#[test]
fn size_persists_after_truncate() {
    let mut v = fresh();
    v.create_dir("rs").unwrap();

    let mut f = v.create("rs/a.txt").unwrap();
    f.write(&mut v, b"hello world").unwrap();
    f.set_len(&mut v, 5).unwrap();
    drop(f);

    let m1 = v.metadata("rs/a.txt").unwrap();
    assert_eq!(m1.size, 5);

    let v2 = remount(v);
    let m2 = v2.metadata("rs/a.txt").unwrap();
    assert_eq!(m2.size, 5);
}

#[test]
fn remove_file_persists() {
    let mut v = fresh();
    v.create_dir("rs").unwrap();

    let mut f = v.create("rs/a.txt").unwrap();
    f.write(&mut v, b"hello").unwrap();
    drop(f);

    assert!(v.node_exists("rs/a.txt"));

    v.remove_file("rs/a.txt").unwrap();
    assert!(!v.node_exists("rs/a.txt"));

    let v2 = remount(v);
    assert!(!v2.node_exists("rs/a.txt"));
}

#[test]
fn remove_dir_only_if_empty() {
    let mut v = fresh();
    v.create_dir("rs").unwrap();
    v.create_dir("rs/sub").unwrap();

    assert!(v.remove_dir("rs").is_err());

    v.remove_dir("rs/sub").unwrap();
    assert!(!v.node_exists("rs/sub"));

    let v2 = remount(v);
    assert!(!v2.node_exists("rs/sub"));
}

#[test]
fn rename_in_same_dir() {
    let mut v = fresh();
    v.create_dir("rs").unwrap();

    let mut f = v.create("rs/a.txt").unwrap();
    f.write(&mut v, b"hello").unwrap();
    drop(f);

    v.rename("rs/a.txt", "rs/b.txt").unwrap();

    assert!(!v.node_exists("rs/a.txt"));
    assert!(v.node_exists("rs/b.txt"));

    let s = read_all(&v, "rs/b.txt");
    assert_eq!(s, b"hello".to_vec());
}

#[test]
fn rename_across_dirs() {
    let mut v = fresh();
    v.create_dir("a").unwrap();
    v.create_dir("b").unwrap();

    let mut f = v.create("a/x.txt").unwrap();
    f.write(&mut v, b"data").unwrap();
    drop(f);

    v.rename("a/x.txt", "b/y.txt").unwrap();

    assert!(!v.node_exists("a/x.txt"));
    assert!(v.node_exists("b/y.txt"));

    let s = read_all(&v, "b/y.txt");
    assert_eq!(s, b"data".to_vec());
}

#[test]
fn rename_persists_after_reopen() {
    let mut v = fresh();
    v.create_dir("rs").unwrap();
    let _ = v.create("rs/a.txt").unwrap();
    v.rename("rs/a.txt", "rs/b.txt").unwrap();

    let v2 = remount(v);
    assert!(!v2.node_exists("rs/a.txt"));
    assert!(v2.node_exists("rs/b.txt"));
}

#[test]
fn fresh_mount_has_empty_root() {
    let v = fresh();
    let mut dir = v.read_dir("").expect("read_dir of root");
    assert!(dir.next().is_none());
}

#[test]
fn crc_matches_reference_value() {
    // The well-known CRC-32 check value for the nine ASCII digits.
    let r = virtual_file_system::no_sql::crc32(b"123456789");
    assert_eq!(r, 0xCBF43926);
}

#[test]
fn encoder_decoder_roundtrip_primitives() {
    let mut e = virtual_file_system::no_sql::Encoder::new();
    e.put_u8(7);
    e.put_u32(0xDEADBEEF);
    e.put_u64(0x0123456789ABCDEF);
    e.put_i128(-42);
    e.put_bytes(b"abc");
    e.put_string("héllo");
    let bytes = e.into_inner();

    let mut d = virtual_file_system::no_sql::Decoder::new(&bytes);
    assert_eq!(d.get_u8().unwrap(), 7);
    assert_eq!(d.get_u32().unwrap(), 0xDEADBEEF);
    assert_eq!(d.get_u64().unwrap(), 0x0123456789ABCDEF);
    assert_eq!(d.get_i128().unwrap(), -42);
    assert_eq!(d.get_bytes().unwrap(), b"abc");
    assert_eq!(d.get_string().unwrap(), "héllo");
    assert!(d.is_eof());
}

#[test]
fn decoder_rejects_overrun_and_bad_utf8() {
    let bytes = vec![1u8, 2u8];
    let mut d = virtual_file_system::no_sql::Decoder::new(&bytes);
    assert!(d.get_u32().is_err());

    // Length prefix 2, followed by an invalid UTF-8 byte pair.
    let mut e = virtual_file_system::no_sql::Encoder::new();
    e.put_u64(2);
    e.put_u8(0xFF);
    e.put_u8(0xFE);
    let raw = e.into_inner();
    let mut d2 = virtual_file_system::no_sql::Decoder::new(&raw);
    assert!(matches!(
        d2.get_string(),
        Err(virtual_file_system::VfsError::CorruptLog(_))
    ));
}

#[test]
fn record_roundtrip_all_kinds() {
    let mut store: Vec<u8> = Vec::new();
    write_header(&mut store, 4096, InodeId(1)).unwrap();
    let records = vec![
        Record::DirEntryAdd {
            entry: virtual_file_system::DirEntry {
                parent: InodeId(1),
                inode: InodeId(2),
                name: "x".to_string(),
                kind: NodeKind::File,
            },
        },
        Record::Truncate {
            inode: InodeId(2),
            len: 77,
        },
        Record::SetTimes {
            inode: InodeId(2),
            created_at: Some(Timestamp(123)),
            modified_at: None,
        },
        Record::DirEntryRemove {
            parent: InodeId(1),
            name: "x".to_string(),
            inode: InodeId(2),
        },
        Record::Rename {
            inode: InodeId(2),
            old_parent: InodeId(1),
            new_parent: InodeId(1),
            old_name: "x".to_string(),
            new_name: "y".to_string(),
        },
    ];
    for rec in &records {
        write_record(&mut store, rec).unwrap();
    }
    let mut off = 24u64;
    for rec in &records {
        let (got, next) = read_next_record(&store, off).unwrap().expect("a record");
        assert_eq!(&got.record, rec);
        off = next;
    }
    assert_eq!(off, store.len() as u64);
}

#[test]
fn data_write_record_reports_payload_offset() {
    let mut store: Vec<u8> = Vec::new();
    write_header(&mut store, 4096, InodeId(1)).unwrap();
    let (crc, payload_off) = virtual_file_system::no_sql::write_data_write_record(
        &mut store,
        InodeId(2),
        10,
        b"payload",
    )
    .unwrap();
    assert_eq!(payload_off, 24 + 45);
    assert_eq!(crc, virtual_file_system::no_sql::crc32(b"payload"));
    let (got, next) = read_next_record(&store, 24).unwrap().expect("a record");
    assert_eq!(got.data_payload_offset, Some(24 + 45));
    match got.record {
        Record::DataWrite {
            inode,
            logical_offset,
            len,
            checksum,
        } => {
            assert_eq!(inode, InodeId(2));
            assert_eq!(logical_offset, 10);
            assert_eq!(len, 7);
            assert_eq!(checksum, crc);
        }
        _ => panic!("wrong record"),
    }
    assert_eq!(next, store.len() as u64);
    assert_eq!(&store[payload_off as usize..], b"payload");
}

#[test]
fn holes_read_as_zeros_and_reads_stop_at_size() {
    let mut v = fresh();
    v.create_dir("rs").unwrap();
    let mut f = v.create("rs/sparse.bin").unwrap();
    f.seek(&v, SeekFrom::Start(3)).unwrap();
    f.write(&mut v, b"xy").unwrap();
    drop(f);

    let m = v.metadata("rs/sparse.bin").unwrap();
    assert_eq!(m.size, 5);

    let mut f2 = v.open("rs/sparse.bin").unwrap();
    let got = f2.read(&v, 100).unwrap();
    assert_eq!(got, vec![0, 0, 0, b'x', b'y']);
    // The cursor sits at the size now; further reads return nothing.
    assert!(f2.read(&v, 10).unwrap().is_empty());
}

#[test]
fn overlapping_writes_newest_wins() {
    let mut v = fresh();
    let mut f = v.create("f.bin").unwrap();
    f.write(&mut v, b"aaaaaa").unwrap();
    f.seek(&v, SeekFrom::Start(2)).unwrap();
    f.write(&mut v, b"bb").unwrap();
    f.seek(&v, SeekFrom::Start(3)).unwrap();
    f.write(&mut v, b"c").unwrap();
    drop(f);

    let got = read_all(&v, "f.bin");
    assert_eq!(got, b"aabcaa".to_vec());

    let v2 = remount(v);
    let got2 = read_all(&v2, "f.bin");
    assert_eq!(got2, b"aabcaa".to_vec());
}

#[test]
fn invalid_paths_are_rejected() {
    let mut v = fresh();
    for p in ["", ".", "..", "a//b", "/a", "a/", "a/./b", "a/../b"] {
        assert!(
            matches!(
                v.create_dir(p),
                Err(virtual_file_system::VfsError::InvalidPath(_))
            ),
            "path {:?} should be invalid",
            p
        );
    }
}

#[test]
fn error_variants_are_exact() {
    let mut v = fresh();
    v.create_dir("d").unwrap();
    let mut f = v.create("d/f.txt").unwrap();
    f.write(&mut v, b"z").unwrap();
    drop(f);

    assert!(matches!(
        v.create_dir("missing/sub"),
        Err(virtual_file_system::VfsError::NotFound(_))
    ));
    assert!(matches!(
        v.create_dir("d/f.txt/sub"),
        Err(virtual_file_system::VfsError::NotADir(_))
    ));
    assert!(matches!(
        v.create_dir("d"),
        Err(virtual_file_system::VfsError::AlreadyExists(_))
    ));
    assert!(matches!(
        v.remove_dir("d/f.txt"),
        Err(virtual_file_system::VfsError::NotADir(_))
    ));
    assert!(matches!(
        v.remove_file("d"),
        Err(virtual_file_system::VfsError::NotAFile(_))
    ));
    assert!(matches!(
        v.open_file("d"),
        Err(virtual_file_system::VfsError::NotAFile(_))
    ));
    assert!(matches!(
        v.rename("d/f.txt", "d"),
        Err(virtual_file_system::VfsError::AlreadyExists(_))
    ));
}

#[test]
fn mount_rejects_bad_header() {
    // Too short.
    assert!(matches!(
        Vfs::mount(vec![0x43; 10]),
        Err(virtual_file_system::VfsError::CorruptLog(_))
    ));
    // Wrong magic.
    let mut bad = vec![0u8; 24];
    bad[8] = 1;
    assert!(matches!(
        Vfs::mount(bad),
        Err(virtual_file_system::VfsError::CorruptLog(_))
    ));
    // Right magic, unsupported version.
    let mut v2 = vec![0x43u8; 8];
    v2.extend_from_slice(&2u32.to_le_bytes());
    v2.extend_from_slice(&4096u32.to_le_bytes());
    v2.extend_from_slice(&1u64.to_le_bytes());
    assert!(matches!(
        Vfs::mount(v2),
        Err(virtual_file_system::VfsError::UnsupportedVersion(2))
    ));
}

#[test]
fn truncated_tail_is_tolerated() {
    let mut v = fresh();
    v.create_dir("rs").unwrap();
    let mut f = v.create("rs/a.txt").unwrap();
    f.write(&mut v, b"hello").unwrap();
    drop(f);
    let full = v.into_store();

    // Cutting anywhere into the final record leaves a mountable store.
    let v_full = Vfs::mount(full.clone()).unwrap();
    assert!(v_full.node_exists("rs/a.txt"));

    for cut in 1..60usize {
        let prefix = full[..full.len() - cut].to_vec();
        let vp = Vfs::mount(prefix).expect("prefix must mount");
        // The directory created long before the cut is still there.
        assert!(vp.node_exists("rs"));
    }
}

#[test]
fn seek_saturates_and_reports_position() {
    let mut v = fresh();
    let mut f = v.create("s.bin").unwrap();
    f.write(&mut v, b"abcdef").unwrap();

    assert_eq!(f.seek(&v, SeekFrom::Start(2)).unwrap(), 2);
    assert_eq!(f.seek(&v, SeekFrom::Current(-10)).unwrap(), 0);
    assert_eq!(f.seek(&v, SeekFrom::End(-2)).unwrap(), 4);
    assert_eq!(f.seek(&v, SeekFrom::End(3)).unwrap(), 9);
    let got = f.read(&v, 10).unwrap();
    assert!(got.is_empty());
}

#[test]
fn write_requires_writable_handle() {
    let mut v = fresh();
    let mut f = v.create("w.bin").unwrap();
    f.write(&mut v, b"ok").unwrap();
    drop(f);
    let mut r = v.open("w.bin").unwrap();
    assert!(matches!(
        r.write(&mut v, b"nope"),
        Err(virtual_file_system::VfsError::Io(_))
    ));
}

#[test]
fn superblock_roundtrip() {
    let sb = virtual_file_system::storage::Superblock {
        version: 1,
        generation: 9,
        snapshot_offset: 128,
        snapshot_len: 77,
        snapshot_crc32: 0xABCD1234,
    };
    let bytes = sb.encode_fixed();
    assert_eq!(bytes.len(), 64);
    let back = virtual_file_system::storage::Superblock::decode_fixed(&bytes).unwrap();
    assert_eq!(back, sb);
    assert_eq!(
        virtual_file_system::storage::Superblock::invalid().generation,
        0
    );

    let mut bad = bytes.clone();
    bad[0] = 0;
    assert!(virtual_file_system::storage::Superblock::decode_fixed(&bad).is_err());
}

#[test]
fn checkpoint_then_mutate_persists() {
    let mut v = fresh();
    v.create_dir("rs").unwrap();
    let mut f = v.create("rs/a.txt").unwrap();
    f.write(&mut v, b"hello").unwrap();
    drop(f);

    v.checkpoint().unwrap();
    v.rename("rs/a.txt", "rs/b.txt").unwrap();

    let v2 = remount(v);
    assert!(!v2.node_exists("rs/a.txt"));
    assert!(v2.node_exists("rs/b.txt"));
    assert_eq!(read_all(&v2, "rs/b.txt"), b"hello".to_vec());
}

#[test]
fn consecutive_checkpoints_leave_state_unchanged() {
    let mut v = fresh();
    v.create_dir("rs").unwrap();
    let mut f = v.create("rs/a.txt").unwrap();
    f.write(&mut v, b"abc").unwrap();
    drop(f);

    v.checkpoint().unwrap();
    v.checkpoint().unwrap();
    v.checkpoint().unwrap();

    let v2 = remount(v);
    assert!(v2.node_exists("rs/a.txt"));
    assert_eq!(read_all(&v2, "rs/a.txt"), b"abc".to_vec());
    assert_eq!(v2.metadata("rs/a.txt").unwrap().size, 3);
}

#[test]
fn checkpoint_skips_earlier_history() {
    let mut v = fresh();
    v.create_dir("d").unwrap();
    let mut f = v.create("d/x").unwrap();
    f.write(&mut v, b"zz").unwrap();
    drop(f);
    v.checkpoint().unwrap();

    // Replay must come from the checkpoint: the state survives a
    // remount, and mutations after it replay on top.
    let mut v2 = remount(v);
    v2.create_dir("d/e").unwrap();
    let v3 = remount(v2);
    assert!(v3.node_exists("d/e"));
    assert_eq!(read_all(&v3, "d/x"), b"zz".to_vec());
}

#[test]
fn checkpoint_refuses_detached_inodes() {
    let mut v = fresh();
    v.create_dir("rs").unwrap();
    let mut f = v.create("rs/a.txt").unwrap();
    f.write(&mut v, b"hello").unwrap();
    drop(f);
    v.remove_file("rs/a.txt").unwrap();

    // The removed file's inode stays in the table until a checkpoint
    // compacts it away, so the summary cannot be taken faithfully.
    assert!(matches!(
        v.checkpoint(),
        Err(virtual_file_system::VfsError::CorruptLog(_))
    ));
}

#[test]
fn unlinked_file_still_reads_through_open_handle() {
    let mut v = fresh();
    let mut f = v.create("a.txt").unwrap();
    f.write(&mut v, b"still here").unwrap();
    f.seek(&v, SeekFrom::Start(0)).unwrap();

    v.remove_file("a.txt").unwrap();
    assert!(!v.node_exists("a.txt"));

    // The inode outlives its entry, exactly as the log records it.
    let got = f.read(&v, 100).unwrap();
    assert_eq!(got, b"still here".to_vec());
}
