use snapshot_fuse::error::SnapshotError;
use snapshot_fuse::repo::{
    count_shard_dirs, find_index_file, listing_requests, parse_index_number, resolve_snapshot,
    DirListing, IndexEntry, RepoMetadata, ResolvedIndex, ResolvedRepo, SnapshotEntry,
};

fn strings(items: &[&str]) -> Vec<String> {
    items.iter().map(|s| s.to_string()).collect()
}

fn snapshot(name: &str, uuid: &str, lookup: Option<&[&str]>) -> SnapshotEntry {
    SnapshotEntry {
        name: name.to_string(),
        uuid: uuid.to_string(),
        index_metadata_lookup: lookup
            .map(|ids| ids.iter().map(|id| (id.to_string(), "key".to_string())).collect()),
    }
}

fn index(name: &str, id: &str, snapshots: &[&str], generations: &[&str]) -> (String, IndexEntry) {
    (
        name.to_string(),
        IndexEntry {
            id: id.to_string(),
            snapshots: strings(snapshots),
            shard_generations: strings(generations),
        },
    )
}

fn single_snapshot_repo() -> RepoMetadata {
    RepoMetadata {
        snapshots: vec![snapshot(
            "rfs-snapshot",
            "KhcpVj8aRMek0oLMUSPHeg",
            Some(&["0edrmuSPR1CIr2B6BZbMJA"]),
        )],
        indices: vec![index(
            "bwc_index_1",
            "0edrmuSPR1CIr2B6BZbMJA",
            &["KhcpVj8aRMek0oLMUSPHeg"],
            &["rhPQ_5vkQ0uRHD4qJwsGLg"],
        )],
        index_metadata_identifiers: vec![("key".to_string(), "meta".to_string())],
    }
}

#[test]
fn test_load_repo_metadata() {
    let meta = single_snapshot_repo();
    let resolved = resolve_snapshot(&meta, "rfs-snapshot", &Vec::new()).unwrap();
    assert_eq!(resolved.snapshot_name, "rfs-snapshot");
    assert_eq!(resolved.snapshot_id, "KhcpVj8aRMek0oLMUSPHeg");
    assert!(!resolved.indices.is_empty());

    // Should have bwc_index_1
    let bwc = resolved.get("bwc_index_1").unwrap();
    assert_eq!(bwc.id, "0edrmuSPR1CIr2B6BZbMJA");
    assert_eq!(bwc.num_shards, 1);
}

#[test]
fn unknown_snapshot_is_not_found() {
    let meta = single_snapshot_repo();
    assert!(matches!(
        resolve_snapshot(&meta, "other", &Vec::new()),
        Err(SnapshotError::NotFound)
    ));
    assert!(matches!(listing_requests(&meta, "other"), Err(SnapshotError::NotFound)));
    let empty = RepoMetadata {
        snapshots: Vec::new(),
        indices: Vec::new(),
        index_metadata_identifiers: Vec::new(),
    };
    assert!(matches!(resolve_snapshot(&empty, "", &Vec::new()), Err(SnapshotError::NotFound)));
}

#[test]
fn first_snapshot_of_a_name_counts() {
    let meta = RepoMetadata {
        snapshots: vec![
            snapshot("a", "uuid-a", None),
            snapshot("s", "uuid-1", None),
            snapshot("s", "uuid-2", None),
        ],
        indices: vec![
            index("one", "id-1", &["uuid-1"], &["g"]),
            index("two", "id-2", &["uuid-2"], &["g"]),
        ],
        index_metadata_identifiers: Vec::new(),
    };
    let resolved = resolve_snapshot(&meta, "s", &Vec::new()).unwrap();
    assert_eq!(resolved.snapshot_id, "uuid-1");
    assert_eq!(resolved.indices.len(), 1);
    assert_eq!(resolved.indices[0].name, "one");
    assert!(meta.find_snapshot("s").is_some());
    assert_eq!(meta.find_snapshot("a").unwrap().uuid, "uuid-a");
    assert!(meta.find_snapshot("z").is_none());
}

#[test]
fn lookup_decides_where_it_is_present() {
    let meta = RepoMetadata {
        snapshots: vec![snapshot("s", "uuid", Some(&["id-2", "id-9"]))],
        indices: vec![
            // listed by the snapshots array, but not by the lookup
            index("one", "id-1", &["uuid"], &["g"]),
            index("two", "id-2", &[], &["g", "h"]),
            index("three", "id-3", &["uuid"], &["g"]),
        ],
        index_metadata_identifiers: Vec::new(),
    };
    let resolved = resolve_snapshot(&meta, "s", &Vec::new()).unwrap();
    assert_eq!(resolved.indices.len(), 1);
    assert_eq!(resolved.indices[0].name, "two");
    assert_eq!(resolved.indices[0].id, "id-2");
    assert_eq!(resolved.indices[0].num_shards, 2);
    assert!(resolved.get("one").is_none());
    assert!(!meta.snapshots[0].holds(&meta.indices[0].1));
    assert!(meta.snapshots[0].holds(&meta.indices[1].1));
}

#[test]
fn snapshots_array_decides_without_lookup() {
    let meta = RepoMetadata {
        snapshots: vec![snapshot("s", "uuid", None)],
        indices: vec![
            index("one", "id-1", &["other", "uuid"], &["g"]),
            index("two", "id-2", &["other"], &["g", "h"]),
            index("three", "id-3", &["uuid"], &["g", "h", "i"]),
        ],
        index_metadata_identifiers: Vec::new(),
    };
    let resolved = resolve_snapshot(&meta, "s", &Vec::new()).unwrap();
    let names: Vec<&str> = resolved.indices.iter().map(|i| i.name.as_str()).collect();
    assert_eq!(names, vec!["one", "three"]);
    assert_eq!(resolved.get("three").unwrap().num_shards, 3);
}

#[test]
fn shards_are_counted_from_listings_without_generations() {
    let meta = RepoMetadata {
        snapshots: vec![snapshot("s", "uuid", None)],
        indices: vec![
            index("one", "id-1", &["uuid"], &[]),
            index("two", "id-2", &["uuid"], &["g"]),
            index("three", "id-3", &["uuid"], &[]),
            index("four", "id-4", &["other"], &[]),
        ],
        index_metadata_identifiers: Vec::new(),
    };
    assert_eq!(listing_requests(&meta, "s").unwrap(), vec!["id-1", "id-3"]);
    let listings = vec![
        DirListing { index_id: "id-1".to_string(), names: strings(&["0", "1", "meta", "2", "x3"]) },
        DirListing { index_id: "id-2".to_string(), names: strings(&["0", "1", "2", "3", "4"]) },
        DirListing { index_id: "id-1".to_string(), names: strings(&["0"]) },
    ];
    let resolved = resolve_snapshot(&meta, "s", &listings).unwrap();
    assert_eq!(resolved.get("one").unwrap().num_shards, 3);
    assert_eq!(resolved.get("two").unwrap().num_shards, 1);
    // no listing: no shards
    assert_eq!(resolved.get("three").unwrap().num_shards, 0);
    assert!(resolved.get("four").is_none());
}

#[test]
fn shard_directories_are_those_named_by_a_number() {
    assert_eq!(count_shard_dirs(&Vec::new()), 0);
    assert_eq!(count_shard_dirs(&strings(&["0", "1", "2"])), 3);
    assert_eq!(count_shard_dirs(&strings(&["0", "a", "", "-1", "+1", "004"])), 3);
    assert_eq!(count_shard_dirs(&strings(&["4294967295", "4294967296"])), 1);
}

#[test]
fn index_file_with_the_greatest_number_is_picked() {
    assert_eq!(find_index_file(&strings(&["index-1"])), Ok(0));
    assert_eq!(find_index_file(&strings(&["indices", "index-3", "index-12", "index-7"])), Ok(2));
    assert_eq!(find_index_file(&strings(&["index.latest", "index-", "index-x", "index-0"])), Ok(3));
    assert_eq!(find_index_file(&strings(&["index-5", "index-+5", "index-05"])), Ok(0));
    assert_eq!(
        find_index_file(&strings(&["index-18446744073709551616", "index-18446744073709551615"])),
        Ok(1)
    );
    assert_eq!(find_index_file(&strings(&[])), Err(SnapshotError::NotFound));
    assert_eq!(
        find_index_file(&strings(&["indices", "index.latest", "Index-1", "xindex-1"])),
        Err(SnapshotError::NotFound)
    );
}

#[test]
fn index_file_numbers_parse() {
    assert_eq!(parse_index_number("index-0"), Some(0));
    assert_eq!(parse_index_number("index-42"), Some(42));
    assert_eq!(parse_index_number("index-"), None);
    assert_eq!(parse_index_number("index"), None);
    assert_eq!(parse_index_number("index-1a"), None);
    assert_eq!(parse_index_number("index--1"), None);
}

#[test]
fn later_index_of_a_name_counts() {
    let repo = ResolvedRepo {
        snapshot_id: "uuid".to_string(),
        snapshot_name: "s".to_string(),
        indices: vec![
            ResolvedIndex { name: "a".to_string(), id: "first".to_string(), num_shards: 1 },
            ResolvedIndex { name: "b".to_string(), id: "other".to_string(), num_shards: 1 },
            ResolvedIndex { name: "a".to_string(), id: "second".to_string(), num_shards: 2 },
        ],
    };
    assert_eq!(repo.get("a").unwrap().id, "second");
    assert_eq!(repo.get("b").unwrap().id, "other");
    assert!(repo.get("c").is_none());
    let copy = repo.indices[2].clone();
    assert_eq!((copy.name.as_str(), copy.id.as_str(), copy.num_shards), ("a", "second", 2));
}
