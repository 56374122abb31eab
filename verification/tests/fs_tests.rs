use snapshot_fuse::error::SnapshotError;
use snapshot_fuse::attr::{make_dir_attr, make_file_attr, FileKind, ATTR_TTL_SECS, BLOCK_SIZE};
use snapshot_fuse::fs::{BlobRead, ReadAction, SnapshotFs, Step};
use snapshot_fuse::table::{DirEntry, InodeEntry};
use snapshot_fuse::metadata::{ShardFileEntry, UNPARTITIONED};
use snapshot_fuse::plan::PartRead;
use snapshot_fuse::repo::{ResolvedIndex, ResolvedRepo};
use std::io::Write;

fn repo(indices: &[(&str, &str, usize)]) -> ResolvedRepo {
    ResolvedRepo {
        snapshot_id: "KhcpVj8aRMek0oLMUSPHeg".to_string(),
        snapshot_name: "rfs-snapshot".to_string(),
        indices: indices
            .iter()
            .map(|(name, id, num_shards)| ResolvedIndex {
                name: name.to_string(),
                id: id.to_string(),
                num_shards: *num_shards,
            })
            .collect(),
    }
}

fn two_index_fs() -> SnapshotFs {
    SnapshotFs::new("/repo".to_string(), repo(&[("logs", "id-logs", 2), ("app", "id-app", 1)]))
}

fn file(blob_name: &str, physical_name: &str, length: u64, part_size: u64) -> ShardFileEntry {
    let num_parts = if part_size == UNPARTITIONED {
        1
    } else {
        std::cmp::max(1, length / part_size + (length % part_size != 0) as u64)
    };
    ShardFileEntry {
        blob_name: blob_name.to_string(),
        physical_name: physical_name.to_string(),
        length,
        part_size,
        num_parts,
        is_virtual: blob_name.starts_with("v__"),
        meta_hash: Vec::new(),
    }
}

fn virtual_file(physical_name: &str, content: &[u8]) -> ShardFileEntry {
    let mut f = file("v__blob", physical_name, content.len() as u64, UNPARTITIONED);
    f.meta_hash = content.to_vec();
    f
}

fn names(entries: &[DirEntry]) -> Vec<(u64, FileKind, String)> {
    entries.iter().map(|e| (e.ino, e.kind, e.name.clone())).collect()
}

fn dir(ino: u64, name: &str) -> (u64, FileKind, String) {
    (ino, FileKind::Directory, name.to_string())
}

fn reg(ino: u64, name: &str) -> (u64, FileKind, String) {
    (ino, FileKind::RegularFile, name.to_string())
}

fn reads_of(action: ReadAction) -> (String, u32, Vec<(String, u64, u64)>) {
    match action {
        ReadAction::Blobs { index_id, shard_id, reads } => (
            index_id,
            shard_id,
            reads.into_iter().map(|r: BlobRead| (r.file_name, r.offset, r.len)).collect(),
        ),
        ReadAction::Data(_) => panic!("expected blob reads"),
    }
}

fn data_of(action: ReadAction) -> Vec<u8> {
    match action {
        ReadAction::Data(d) => d,
        ReadAction::Blobs { .. } => panic!("expected data"),
    }
}

#[test]
fn table_starts_with_root_then_indices_then_shards() {
    let fs = two_index_fs();
    assert!(matches!(fs.get_entry(1), Some(InodeEntry::Root)));
    match fs.get_entry(2) {
        Some(InodeEntry::IndexDir { name }) => assert_eq!(name, "app"),
        _ => panic!("expected index directory"),
    }
    match fs.get_entry(3) {
        Some(InodeEntry::IndexDir { name }) => assert_eq!(name, "logs"),
        _ => panic!("expected index directory"),
    }
    match fs.get_entry(4) {
        Some(InodeEntry::ShardDir { index_name, shard_id }) => {
            assert_eq!((index_name.as_str(), *shard_id), ("app", 0))
        }
        _ => panic!("expected shard directory"),
    }
    match fs.get_entry(6) {
        Some(InodeEntry::ShardDir { index_name, shard_id }) => {
            assert_eq!((index_name.as_str(), *shard_id), ("logs", 1))
        }
        _ => panic!("expected shard directory"),
    }
    assert!(fs.get_entry(7).is_none());
    assert!(fs.get_entry(0).is_none());
    assert!(fs.get_entry(u64::MAX).is_none());
}

#[test]
fn filesystem_keeps_what_it_was_made_of() {
    let fs = SnapshotFs::new("/repo".to_string(), repo(&[("b", "id-b", 1), ("a", "id-a", 3)]));
    assert_eq!(fs.repo_root(), "/repo");
    assert_eq!(fs.resolved().snapshot_id, "KhcpVj8aRMek0oLMUSPHeg");
    assert_eq!(fs.resolved().snapshot_name, "rfs-snapshot");
    let names: Vec<&str> = fs.resolved().indices.iter().map(|i| i.name.as_str()).collect();
    assert_eq!(names, vec!["a", "b"]);
    assert_eq!(fs.resolved().get("a").unwrap().num_shards, 3);
}

#[test]
fn identifiers_convert_to_positions() {
    assert_eq!(SnapshotFs::inode_to_index(1), 0);
    assert_eq!(SnapshotFs::inode_to_index(42), 41);
    assert_eq!(SnapshotFs::index_to_inode(0), 1);
    assert_eq!(SnapshotFs::index_to_inode(41), 42);
}

#[test]
fn empty_repository_has_only_the_root() {
    let fs = SnapshotFs::new(String::new(), repo(&[]));
    assert!(matches!(fs.get_entry(1), Some(InodeEntry::Root)));
    assert!(fs.get_entry(2).is_none());
    assert_eq!(names(&fs.readdir_in_table(1, 0).unwrap()), vec![dir(1, "."), dir(1, "..")]);
}

#[test]
fn later_index_of_a_name_replaces_the_earlier() {
    let fs = SnapshotFs::new(
        "/repo".to_string(),
        repo(&[("b", "id-b", 1), ("a", "old", 3), ("c", "id-c", 0), ("a", "new", 1)]),
    );
    assert_eq!(
        names(&fs.readdir_in_table(1, 2).unwrap()),
        vec![dir(2, "a"), dir(3, "b"), dir(4, "c")]
    );
    assert_eq!(names(&fs.readdir_in_table(2, 2).unwrap()), vec![dir(5, "0")]);
    assert_eq!(names(&fs.readdir_in_table(4, 2).unwrap()), vec![]);
    assert_eq!(fs.pending_shard_load(5).unwrap().index_id, "new");
}

#[test]
fn lookup_resolves_names() {
    let fs = two_index_fs();
    assert_eq!(fs.lookup_in_table(1, "app"), Ok((2, make_dir_attr(2))));
    assert_eq!(fs.lookup_in_table(1, "logs"), Ok((3, make_dir_attr(3))));
    assert_eq!(fs.lookup_in_table(1, "nope"), Err(SnapshotError::NotFound));
    assert_eq!(fs.lookup_in_table(1, "0"), Err(SnapshotError::NotFound));
    assert_eq!(fs.lookup_in_table(3, "0"), Ok((5, make_dir_attr(5))));
    assert_eq!(fs.lookup_in_table(3, "1"), Ok((6, make_dir_attr(6))));
    assert_eq!(fs.lookup_in_table(3, "2"), Err(SnapshotError::NotFound));
    assert_eq!(fs.lookup_in_table(2, "1"), Err(SnapshotError::NotFound));
    assert_eq!(fs.lookup_in_table(3, "logs"), Err(SnapshotError::NotFound));
    // the name of a shard is read as a number
    assert_eq!(fs.lookup_in_table(3, "01"), Ok((6, make_dir_attr(6))));
    assert_eq!(fs.lookup_in_table(3, "+1"), Ok((6, make_dir_attr(6))));
    assert_eq!(fs.lookup_in_table(3, "1 "), Err(SnapshotError::NotFound));
    assert_eq!(fs.lookup_in_table(0, "app"), Err(SnapshotError::NotFound));
    assert_eq!(fs.lookup_in_table(99, "app"), Err(SnapshotError::NotFound));
    assert_eq!(fs.find_child_inode(1, "logs"), Some(3));
    assert_eq!(fs.find_child_inode(99, "logs"), None);
}

#[test]
fn files_are_found_once_their_shard_is_loaded() {
    let mut fs = two_index_fs();
    assert_eq!(fs.lookup_in_table(5, "_0.cfs"), Err(SnapshotError::NotFound));
    assert!(fs.install_shard_files(
        5,
        vec![file("__a", "_0.cfs", 1000, UNPARTITIONED), file("__b", "_0.si", 0, UNPARTITIONED)]
    ));
    assert_eq!(fs.lookup_in_table(5, "_0.cfs"), Ok((7, make_file_attr(7, 1000))));
    assert_eq!(fs.lookup_in_table(5, "_0.si"), Ok((8, make_file_attr(8, 0))));
    assert_eq!(fs.lookup_in_table(5, "_1.si"), Err(SnapshotError::NotFound));
    // another shard of the same index, and the same shard number of another index
    assert_eq!(fs.lookup_in_table(6, "_0.cfs"), Err(SnapshotError::NotFound));
    assert_eq!(fs.lookup_in_table(4, "_0.cfs"), Err(SnapshotError::NotFound));
    assert_eq!(fs.lookup_in_table(7, "x"), Err(SnapshotError::NotADirectory));
    assert_eq!(fs.find_child_inode(7, "x"), None);
}

#[test]
fn attributes_follow_the_kind() {
    let mut fs = two_index_fs();
    fs.install_shard_files(4, vec![file("__a", "_0.cfs", 513, UNPARTITIONED)]);
    let d = fs.getattr(1).unwrap();
    assert_eq!((d.ino, d.size, d.blocks, d.kind), (1, 0, 0, FileKind::Directory));
    assert_eq!((d.perm, d.nlink, d.blksize), (0o555, 2, 512));
    assert_eq!(fs.getattr(4), Ok(make_dir_attr(4)));
    let f = fs.getattr(7).unwrap();
    assert_eq!((f.ino, f.size, f.blocks, f.kind), (7, 513, 2, FileKind::RegularFile));
    assert_eq!((f.perm, f.nlink, f.blksize), (0o444, 1, 512));
    assert_eq!(fs.getattr(8), Err(SnapshotError::NotFound));
    assert_eq!(fs.getattr(0), Err(SnapshotError::NotFound));
    assert_eq!(ATTR_TTL_SECS, 3600);
    assert_eq!(BLOCK_SIZE, 512);
}

#[test]
fn block_count_rounds_up() {
    assert_eq!(make_file_attr(9, 0).blocks, 0);
    assert_eq!(make_file_attr(9, 1).blocks, 1);
    assert_eq!(make_file_attr(9, 512).blocks, 1);
    assert_eq!(make_file_attr(9, 513).blocks, 2);
    assert_eq!(make_file_attr(9, 1024).blocks, 2);
    assert_eq!(make_file_attr(9, u64::MAX).blocks, 1 << 55);
}

#[test]
fn listings_start_with_self_and_root() {
    let mut fs = two_index_fs();
    assert_eq!(
        names(&fs.readdir_in_table(1, 0).unwrap()),
        vec![dir(1, "."), dir(1, ".."), dir(2, "app"), dir(3, "logs")]
    );
    assert_eq!(
        names(&fs.readdir_in_table(3, 0).unwrap()),
        vec![dir(3, "."), dir(1, ".."), dir(5, "0"), dir(6, "1")]
    );
    assert_eq!(names(&fs.readdir_in_table(6, 0).unwrap()), vec![dir(6, "."), dir(1, "..")]);
    fs.install_shard_files(
        6,
        vec![file("__a", "_0.cfs", 5, UNPARTITIONED), file("__b", "segments_2", 7, UNPARTITIONED)],
    );
    fs.install_shard_files(4, vec![file("__c", "_9.si", 5, UNPARTITIONED)]);
    assert_eq!(
        names(&fs.readdir_in_table(6, 0).unwrap()),
        vec![dir(6, "."), dir(1, ".."), reg(7, "_0.cfs"), reg(8, "segments_2")]
    );
    assert_eq!(
        names(&fs.readdir_in_table(4, 0).unwrap()),
        vec![dir(4, "."), dir(1, ".."), reg(9, "_9.si")]
    );
    assert_eq!(names(&fs.readdir_in_table(5, 0).unwrap()), vec![dir(5, "."), dir(1, "..")]);
}

#[test]
fn listings_resume_at_an_offset() {
    let fs = two_index_fs();
    assert_eq!(names(&fs.readdir_in_table(1, 1).unwrap()), vec![dir(1, ".."), dir(2, "app"), dir(3, "logs")]);
    assert_eq!(names(&fs.readdir_in_table(1, 3).unwrap()), vec![dir(3, "logs")]);
    assert_eq!(names(&fs.readdir_in_table(1, 4).unwrap()), vec![]);
    assert_eq!(names(&fs.readdir_in_table(1, 5).unwrap()), vec![]);
    assert_eq!(names(&fs.readdir_in_table(1, i64::MAX).unwrap()), vec![]);
    assert_eq!(names(&fs.readdir_in_table(1, -1).unwrap()), vec![]);
    assert_eq!(names(&fs.readdir_in_table(1, i64::MIN).unwrap()), vec![]);
}

#[test]
fn listing_needs_a_directory() {
    let mut fs = two_index_fs();
    fs.install_shard_files(4, vec![file("__a", "_0.cfs", 5, UNPARTITIONED)]);
    assert!(matches!(fs.readdir_in_table(7, 0), Err(SnapshotError::NotADirectory)));
    assert!(matches!(fs.readdir_in_table(8, 0), Err(SnapshotError::NotFound)));
    assert!(matches!(fs.readdir_in_table(0, 0), Err(SnapshotError::NotFound)));
}

#[test]
fn shards_wait_until_they_are_loaded() {
    let mut fs = two_index_fs();
    assert!(fs.pending_shard_load(1).is_none());
    assert!(fs.pending_shard_load(2).is_none());
    assert!(fs.pending_shard_load(99).is_none());
    let loc = fs.pending_shard_load(6).unwrap();
    assert_eq!(loc.index_id, "id-logs");
    assert_eq!(loc.shard_id, 1);
    assert_eq!(loc.file_name, "snap-KhcpVj8aRMek0oLMUSPHeg.dat");
    assert!(!fs.is_shard_loaded("logs", 1));
    assert!(fs.install_shard_files(6, Vec::new()));
    assert!(fs.is_shard_loaded("logs", 1));
    assert!(!fs.is_shard_loaded("logs", 0));
    assert!(!fs.is_shard_loaded("app", 1));
    assert!(fs.pending_shard_load(6).is_none());
    assert!(fs.pending_shard_load(5).is_some());
    assert_eq!(fs.pending_shard_load(4).unwrap().index_id, "id-app");
}

#[test]
fn files_are_installed_once() {
    let mut fs = two_index_fs();
    assert!(fs.install_shard_files(5, vec![file("__a", "_0.cfs", 5, UNPARTITIONED)]));
    assert!(!fs.install_shard_files(5, vec![file("__b", "_1.cfs", 5, UNPARTITIONED)]));
    assert!(!fs.install_shard_files(1, vec![file("__b", "_1.cfs", 5, UNPARTITIONED)]));
    assert!(!fs.install_shard_files(7, vec![file("__b", "_1.cfs", 5, UNPARTITIONED)]));
    assert!(!fs.install_shard_files(99, vec![file("__b", "_1.cfs", 5, UNPARTITIONED)]));
    assert_eq!(names(&fs.readdir_in_table(5, 2).unwrap()), vec![reg(7, "_0.cfs")]);
    assert!(fs.get_entry(8).is_none());
}

fn key(k: &str) -> Vec<u8> {
    let mut out = vec![0x80 + (k.len() as u8 - 1)];
    out.extend_from_slice(k.as_bytes());
    out
}

fn text(s: &str) -> Vec<u8> {
    let mut out = vec![0xE0];
    out.extend_from_slice(s.as_bytes());
    out.push(0xFC);
    out
}

fn shard_blob() -> Vec<u8> {
    let mut payload = vec![0x3A, 0x29, 0x0A, 0x00, 0xFA];
    payload.extend(key("files"));
    payload.push(0xF8);
    for (name, physical, length) in [("__x", "_0.cfs", 0xC8u8), ("__y", "segments_1", 0xCA)] {
        payload.push(0xFA);
        payload.extend(key("name"));
        payload.extend(text(name));
        payload.extend(key("physical_name"));
        payload.extend(text(physical));
        payload.extend(key("length"));
        payload.push(length);
        payload.push(0xFB);
    }
    payload.extend_from_slice(&[0xF9, 0xFB]);
    let mut e = flate2::write::DeflateEncoder::new(Vec::new(), flate2::Compression::default());
    e.write_all(&payload).unwrap();
    let mut raw = b"DFL\0".to_vec();
    raw.extend(e.finish().unwrap());
    raw
}

#[test]
fn shard_loads_from_its_metadata_blob() {
    let mut fs = two_index_fs();
    assert_eq!(fs.load_shard(4, Some(&shard_blob())), Ok(true));
    assert_eq!(
        names(&fs.readdir_in_table(4, 2).unwrap()),
        vec![reg(7, "_0.cfs"), reg(8, "segments_1")]
    );
    assert_eq!(fs.getattr(7).unwrap().size, 4);
    assert_eq!(fs.getattr(8).unwrap().size, 5);
    assert!(fs.is_shard_loaded("app", 0));
    assert_eq!(fs.load_shard(4, Some(&shard_blob())), Ok(false));
    assert_eq!(fs.load_shard(1, Some(&shard_blob())), Ok(false));
    assert!(fs.get_entry(9).is_none());
}

#[test]
fn bad_metadata_leaves_the_shard_waiting() {
    let mut fs = two_index_fs();
    assert_eq!(fs.load_shard(4, Some(b"not a blob")), Err(SnapshotError::InvalidFormat));
    assert_eq!(fs.load_shard(4, Some(b"DFL\0\xFF\xFF")), Err(SnapshotError::InvalidFormat));
    assert_eq!(fs.load_shard(4, None), Err(SnapshotError::Io));
    assert!(!fs.is_shard_loaded("app", 0));
    assert!(fs.pending_shard_load(4).is_some());
    assert!(fs.get_entry(7).is_none());
    assert_eq!(names(&fs.readdir_in_table(4, 0).unwrap()), vec![dir(4, "."), dir(1, "..")]);
    assert_eq!(fs.load_shard(4, Some(&shard_blob())), Ok(true));
    assert_eq!(fs.lookup_in_table(4, "segments_1").unwrap().0, 8);
}

fn describe(fs: &SnapshotFs, ino: u64) -> String {
    match fs.get_entry(ino) {
        None => "none".to_string(),
        Some(InodeEntry::Root) => "root".to_string(),
        Some(InodeEntry::IndexDir { name }) => format!("index {}", name),
        Some(InodeEntry::ShardDir { index_name, shard_id }) => {
            format!("shard {} {}", index_name, shard_id)
        }
        Some(InodeEntry::LuceneFile { index_name, shard_id, file_entry }) => {
            format!("file {} {} {}", index_name, shard_id, file_entry.physical_name)
        }
    }
}

#[test]
fn identifiers_are_stable() {
    let mut fs = two_index_fs();
    let mut seen: Vec<String> = (1..=6).map(|ino| describe(&fs, ino)).collect();
    fs.install_shard_files(6, vec![file("__a", "_0.cfs", 5, UNPARTITIONED)]);
    for ino in 1..=6u64 {
        assert_eq!(describe(&fs, ino), seen[ino as usize - 1]);
    }
    seen.push(describe(&fs, 7));
    assert_eq!(seen[6], "file logs 1 _0.cfs");
    fs.install_shard_files(4, vec![file("__b", "_1.cfs", 5, UNPARTITIONED), file("__c", "_2.cfs", 5, 2)]);
    let _ = fs.load_shard(5, Some(b"broken"));
    for ino in 1..=7u64 {
        assert_eq!(describe(&fs, ino), seen[ino as usize - 1]);
    }
    assert_eq!(describe(&fs, 8), "file app 0 _1.cfs");
    assert_eq!(describe(&fs, 9), "file app 0 _2.cfs");
    assert_eq!(describe(&fs, 10), "none");
}

#[test]
fn read_needs_a_file() {
    let mut fs = two_index_fs();
    fs.install_shard_files(4, vec![file("__a", "_0.cfs", 5, UNPARTITIONED)]);
    assert!(matches!(fs.read(1, 0, 10), Err(SnapshotError::IsADirectory)));
    assert!(matches!(fs.read(2, 0, 10), Err(SnapshotError::IsADirectory)));
    assert!(matches!(fs.read(4, 0, 10), Err(SnapshotError::IsADirectory)));
    assert!(matches!(fs.read(8, 0, 10), Err(SnapshotError::NotFound)));
    assert!(matches!(fs.read(0, 0, 10), Err(SnapshotError::NotFound)));
    assert!(fs.read(7, 0, 10).is_ok());
}

#[test]
fn read_past_the_end_gives_nothing() {
    let mut fs = two_index_fs();
    fs.install_shard_files(
        4,
        vec![file("__a", "_0.cfs", 5, UNPARTITIONED), file("__e", "_0.si", 0, UNPARTITIONED)],
    );
    assert_eq!(data_of(fs.read(7, 5, 10).unwrap()), Vec::<u8>::new());
    assert_eq!(data_of(fs.read(7, 6, 10).unwrap()), Vec::<u8>::new());
    assert_eq!(data_of(fs.read(7, -1, 10).unwrap()), Vec::<u8>::new());
    assert_eq!(data_of(fs.read(8, 0, 10).unwrap()), Vec::<u8>::new());
    let (_, _, reads) = reads_of(fs.read(7, 4, 0).unwrap());
    assert!(reads.is_empty());
}

#[test]
fn single_part_file_is_read_from_its_blob() {
    let mut fs = two_index_fs();
    fs.install_shard_files(6, vec![file("__a", "_0.cfs", 1000, UNPARTITIONED)]);
    let (index_id, shard_id, reads) = reads_of(fs.read(7, 0, 1000).unwrap());
    assert_eq!(index_id, "id-logs");
    assert_eq!(shard_id, 1);
    assert_eq!(reads, vec![("__a".to_string(), 0, 1000)]);
    let (_, _, reads) = reads_of(fs.read(7, 990, 100).unwrap());
    assert_eq!(reads, vec![("__a".to_string(), 990, 10)]);
    let (_, _, reads) = reads_of(fs.read(7, 10, 20).unwrap());
    assert_eq!(reads, vec![("__a".to_string(), 10, 20)]);
}

#[test]
fn boundary_read_takes_from_two_parts() {
    let mut fs = two_index_fs();
    fs.install_shard_files(4, vec![file("__a", "_0.cfs", 2500, 1000)]);
    let (index_id, shard_id, reads) = reads_of(fs.read(7, 999, 2).unwrap());
    assert_eq!((index_id.as_str(), shard_id), ("id-app", 0));
    assert_eq!(reads, vec![("__a.part0".to_string(), 999, 1), ("__a.part1".to_string(), 0, 1)]);
    let (_, _, reads) = reads_of(fs.read(7, 500, 5000).unwrap());
    assert_eq!(
        reads,
        vec![
            ("__a.part0".to_string(), 500, 500),
            ("__a.part1".to_string(), 0, 1000),
            ("__a.part2".to_string(), 0, 500)
        ]
    );
    let (_, _, reads) = reads_of(fs.read(7, 2000, 1).unwrap());
    assert_eq!(reads, vec![("__a.part2".to_string(), 0, 1)]);
}

#[test]
fn virtual_file_is_read_from_its_meta_hash() {
    let mut fs = two_index_fs();
    fs.install_shard_files(4, vec![virtual_file("segments_5", &[10, 20, 30, 40, 50])]);
    assert_eq!(data_of(fs.read(7, 0, u32::MAX).unwrap()), vec![10, 20, 30, 40, 50]);
    assert_eq!(data_of(fs.read(7, 0, 5).unwrap()), vec![10, 20, 30, 40, 50]);
    assert_eq!(data_of(fs.read(7, 1, 3).unwrap()), vec![20, 30, 40]);
    assert_eq!(data_of(fs.read(7, 4, 3).unwrap()), vec![50]);
    assert_eq!(data_of(fs.read(7, 5, 3).unwrap()), Vec::<u8>::new());
    assert_eq!(data_of(fs.read(7, 2, 0).unwrap()), Vec::<u8>::new());
    assert_eq!(fs.getattr(7).unwrap().size, 5);
}

#[test]
fn file_of_an_unknown_index_reads_as_empty() {
    let fs = two_index_fs();
    let f = file("__a", "_0.cfs", 10, UNPARTITIONED);
    assert_eq!(data_of(fs.read_file_data(&f, "missing", 0, 0, 5)), Vec::<u8>::new());
    let (index_id, _, reads) = reads_of(fs.read_file_data(&f, "app", 0, 0, 5));
    assert_eq!(index_id, "id-app");
    assert_eq!(reads, vec![("__a".to_string(), 0, 5)]);
}

#[test]
fn plans_stay_within_parts() {
    let f = file("__a", "_0.cfs", 25, 10);
    assert_eq!(f.num_parts, 3);
    assert_eq!(
        f.read_plan(0, 25),
        vec![
            PartRead { part_index: 0, offset: 0, len: 10 },
            PartRead { part_index: 1, offset: 0, len: 10 },
            PartRead { part_index: 2, offset: 0, len: 5 }
        ]
    );
    assert_eq!(f.read_plan(9, 2), vec![
        PartRead { part_index: 0, offset: 9, len: 1 },
        PartRead { part_index: 1, offset: 0, len: 1 }
    ]);
    assert_eq!(f.read_plan(24, 100), vec![PartRead { part_index: 2, offset: 4, len: 1 }]);
    assert_eq!(f.read_plan(25, 100), vec![]);
    assert_eq!(f.read_plan(3, 0), vec![]);
    assert_eq!(f.read_plan(u64::MAX, 1), vec![]);
    let exact = file("__a", "_0.cfs", 20, 10);
    assert_eq!(exact.read_plan(10, 100), vec![PartRead { part_index: 1, offset: 0, len: 10 }]);
    let whole = file("__a", "_0.cfs", 20, UNPARTITIONED);
    assert_eq!(whole.read_plan(5, 100), vec![PartRead { part_index: 0, offset: 5, len: 15 }]);
    let huge = file("__a", "_0.cfs", u64::MAX - 1, i64::MAX as u64);
    assert_eq!(
        huge.read_plan(i64::MAX as u64 - 1, 3),
        vec![
            PartRead { part_index: 0, offset: i64::MAX as u64 - 1, len: 1 },
            PartRead { part_index: 1, offset: 0, len: 2 }
        ]
    );
}

fn serve(f: &ShardFileEntry, parts: &[Vec<u8>], offset: u64, size: u32) -> Vec<u8> {
    let mut out = Vec::new();
    if offset >= f.length {
        return out;
    }
    if f.is_virtual {
        return f.read_virtual(offset, size);
    }
    for r in f.read_plan(offset, size) {
        let part = &parts[r.part_index as usize];
        out.extend_from_slice(&part[r.offset as usize..(r.offset + r.len) as usize]);
    }
    out
}

#[test]
fn chunked_reads_join_to_the_parts() {
    for (length, part_size) in [(25u64, 10u64), (30, 10), (1, 1), (7, 1), (100, UNPARTITIONED), (64, 7)] {
        let f = file("__a", "_0.cfs", length, part_size);
        let content: Vec<u8> = (0..length).map(|i| (i * 7 + 3) as u8).collect();
        let size = if part_size == UNPARTITIONED { length } else { part_size } as usize;
        let parts: Vec<Vec<u8>> = content.chunks(size).map(|c| c.to_vec()).collect();
        assert_eq!(parts.len() as u64, f.num_parts);
        for chunk in [1u32, 2, 3, 9, 10, 11, 64, 1000] {
            let mut joined = Vec::new();
            let mut offset = 0u64;
            while offset < length {
                let got = serve(&f, &parts, offset, chunk);
                assert_eq!(got.len() as u64, std::cmp::min(chunk as u64, length - offset));
                joined.extend(got);
                offset += chunk as u64;
            }
            assert_eq!(joined, content);
        }
    }
}

#[test]
fn chunked_reads_join_to_the_meta_hash() {
    let content: Vec<u8> = (0..50u8).collect();
    let f = virtual_file("segments_2", &content);
    for chunk in [1u32, 7, 50, 51] {
        let mut joined = Vec::new();
        let mut offset = 0u64;
        while offset < f.length {
            joined.extend(serve(&f, &[], offset, chunk));
            offset += chunk as u64;
        }
        assert_eq!(joined, content);
    }
}

#[test]
fn virtual_reads_slice_the_meta_hash() {
    let f = virtual_file("segments_2", &[1, 2, 3]);
    assert_eq!(f.read_virtual(0, 0), Vec::<u8>::new());
    assert_eq!(f.read_virtual(0, 2), vec![1, 2]);
    assert_eq!(f.read_virtual(2, u32::MAX), vec![3]);
    assert_eq!(f.read_virtual(3, 1), Vec::<u8>::new());
    assert_eq!(f.read_virtual(u64::MAX, 1), Vec::<u8>::new());
}

#[test]
fn operations_on_a_waiting_shard_ask_for_its_metadata() {
    let mut fs = two_index_fs();
    match fs.lookup(5, "_0.cfs") {
        Step::LoadShard(loc) => {
            assert_eq!(loc.index_id, "id-logs");
            assert_eq!(loc.shard_id, 0);
            assert_eq!(loc.file_name, "snap-KhcpVj8aRMek0oLMUSPHeg.dat");
        }
        Step::Done(_) => panic!("expected a request to load"),
    }
    assert!(matches!(fs.readdir(5, 0), Step::LoadShard(_)));
    assert!(matches!(fs.lookup(1, "logs"), Step::Done(Ok((3, _)))));
    assert!(matches!(fs.lookup(3, "0"), Step::Done(Ok((5, _)))));
    assert!(matches!(fs.lookup(99, "x"), Step::Done(Err(SnapshotError::NotFound))));
    match fs.readdir(3, 2) {
        Step::Done(Ok(entries)) => assert_eq!(names(&entries), vec![dir(5, "0"), dir(6, "1")]),
        _ => panic!("expected a listing"),
    }
    assert_eq!(fs.load_shard(5, Some(&shard_blob())), Ok(true));
    assert!(matches!(fs.lookup(5, "_0.cfs"), Step::Done(Ok((7, _)))));
    assert!(matches!(fs.lookup(5, "nope"), Step::Done(Err(SnapshotError::NotFound))));
    match fs.readdir(5, 2) {
        Step::Done(Ok(entries)) => {
            assert_eq!(names(&entries), vec![reg(7, "_0.cfs"), reg(8, "segments_1")])
        }
        _ => panic!("expected a listing"),
    }
    assert!(matches!(fs.lookup(7, "x"), Step::Done(Err(SnapshotError::NotADirectory))));
    assert!(matches!(fs.readdir(7, 0), Step::Done(Err(SnapshotError::NotADirectory))));
    // the other shard still waits
    assert!(matches!(fs.lookup(6, "_0.cfs"), Step::LoadShard(_)));
}
