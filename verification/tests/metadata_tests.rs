use snapshot_fuse::error::SnapshotError;
use snapshot_fuse::metadata::{
    extract_smile_data, find_dfl_header, load_shard_metadata, parse_file_entry,
    parse_shard_files, read_lucene_vint, skip_codec_header, to_unsigned, ShardFileEntry,
    UNPARTITIONED,
};
use snapshot_fuse::smile::SmileValue;
use std::io::Write;

fn unsigned_vint(mut n: u64) -> Vec<u8> {
    let mut out = vec![0x80 | (n & 0x3F) as u8];
    n >>= 6;
    while n > 0 {
        out.insert(0, (n & 0x7F) as u8);
        n >>= 7;
    }
    out
}

fn key(k: &str) -> Vec<u8> {
    let mut out = vec![0x80 + (k.len() as u8 - 1)];
    out.extend_from_slice(k.as_bytes());
    out
}

fn text(s: &str) -> Vec<u8> {
    let mut out = vec![0xE0];
    out.extend_from_slice(s.as_bytes());
    out.push(0xFC);
    out
}

fn integer(n: i64) -> Vec<u8> {
    let z = ((n << 1) ^ (n >> 63)) as u64;
    let mut out = vec![0x25];
    out.extend(unsigned_vint(z));
    out
}

fn binary(b: &[u8]) -> Vec<u8> {
    let mut out = vec![0xFD];
    out.extend(unsigned_vint(b.len() as u64));
    out.extend_from_slice(b);
    out
}

fn object(fields: &[(&str, Vec<u8>)]) -> Vec<u8> {
    let mut out = vec![0xFA];
    for (k, v) in fields {
        out.extend(key(k));
        out.extend_from_slice(v);
    }
    out.push(0xFB);
    out
}

fn array(items: &[Vec<u8>]) -> Vec<u8> {
    let mut out = vec![0xF8];
    for i in items {
        out.extend_from_slice(i);
    }
    out.push(0xF9);
    out
}

fn payload(root: Vec<u8>) -> Vec<u8> {
    let mut out = vec![0x3A, 0x29, 0x0A, 0x04];
    out.extend(root);
    out
}

fn sample_files() -> Vec<u8> {
    payload(object(&[
        ("name", text("rfs-snapshot")),
        (
            "files",
            array(&[
                object(&[
                    ("name", text("__0KmMz-ttQ0entKtem7qBww")),
                    ("physical_name", text("_0.cfs")),
                    ("length", integer(2500)),
                    ("part_size", integer(1000)),
                ]),
                object(&[
                    ("name", text("v__abc")),
                    ("physical_name", text("segments_3")),
                    ("length", integer(4)),
                    ("part_size", integer(i64::MAX)),
                    ("meta_hash", binary(&[9, 8, 7, 6])),
                ]),
                object(&[
                    ("name", text("__single")),
                    ("physical_name", text("_0.si")),
                    ("length", integer(0)),
                ]),
            ]),
        ),
    ]))
}

fn framed(payload: &[u8], footer: bool) -> Vec<u8> {
    let mut out = vec![0x3F, 0xD7, 0x6C, 0x17, 8];
    out.extend_from_slice(b"snapshot");
    out.extend_from_slice(&[0, 0, 0, 1]);
    out.extend_from_slice(payload);
    if footer {
        out.extend_from_slice(&[0xC0, 0x28, 0x93, 0xE8, 0, 0, 0, 0, 1, 2, 3, 4, 5, 6, 7, 8]);
    }
    out
}

fn deflated(payload: &[u8]) -> Vec<u8> {
    let mut e = flate2::write::DeflateEncoder::new(Vec::new(), flate2::Compression::default());
    e.write_all(payload).unwrap();
    e.finish().unwrap()
}

fn tree(root: Vec<u8>) -> SmileValue {
    snapshot_fuse::smile::SmileParser::parse(&payload(root)).unwrap()
}

#[test]
fn marker_is_found_at_its_first_place() {
    assert_eq!(find_dfl_header(b""), None);
    assert_eq!(find_dfl_header(b"DFL"), None);
    assert_eq!(find_dfl_header(b"DFL\0"), Some(0));
    assert_eq!(find_dfl_header(b"xxDFL\0yyDFL\0"), Some(2));
    assert_eq!(find_dfl_header(b"DFLDFL\0"), Some(3));
    assert_eq!(find_dfl_header(b"DFL\x01DFL"), None);
    assert_eq!(find_dfl_header(b"abcdDFL\0"), Some(4));
}

#[test]
fn codec_numbers_decode() {
    assert_eq!(read_lucene_vint(&[0x05]), Ok((5, 1)));
    assert_eq!(read_lucene_vint(&[0x05, 0xFF]), Ok((5, 1)));
    assert_eq!(read_lucene_vint(&[0x81, 0x01]), Ok((129, 2)));
    assert_eq!(read_lucene_vint(&[0xAC, 0x02]), Ok((300, 2)));
    assert_eq!(read_lucene_vint(&[0xFF, 0xFF, 0xFF, 0xFF, 0x0F]), Ok((u32::MAX, 5)));
    // the bits of the fifth byte that do not fit are dropped
    assert_eq!(read_lucene_vint(&[0x80, 0x80, 0x80, 0x80, 0x7F]), Ok((0xF000_0000, 5)));
    assert_eq!(read_lucene_vint(&[]), Err(SnapshotError::InvalidFormat));
    assert_eq!(read_lucene_vint(&[0x80]), Err(SnapshotError::InvalidFormat));
    assert_eq!(
        read_lucene_vint(&[0x80, 0x80, 0x80, 0x80, 0x80, 0x01]),
        Err(SnapshotError::InvalidFormat)
    );
}

#[test]
fn codec_header_is_measured() {
    let data = framed(&[1, 2, 3], false);
    assert_eq!(skip_codec_header(&data), Ok(17));
    assert_eq!(skip_codec_header(&data[..17]), Ok(17));
    assert_eq!(skip_codec_header(&data[..16]), Err(SnapshotError::InvalidFormat));
    assert_eq!(skip_codec_header(&data[..7]), Err(SnapshotError::InvalidFormat));
    let mut bad = data.clone();
    bad[3] = 0x18;
    assert_eq!(skip_codec_header(&bad), Err(SnapshotError::InvalidFormat));
    // a name length that is cut off
    assert_eq!(
        skip_codec_header(&[0x3F, 0xD7, 0x6C, 0x17, 0x80, 0x80, 0x80, 0x80, 0x80, 0x80, 0, 0]),
        Err(SnapshotError::InvalidFormat)
    );
    // no name at all
    assert_eq!(skip_codec_header(&[0x3F, 0xD7, 0x6C, 0x17, 0, 0, 0, 0, 1]), Ok(9));
}

#[test]
fn framed_payload_is_cut_out() {
    let inner = [7u8; 40];
    assert_eq!(extract_smile_data(&framed(&inner, true)), Ok(inner.to_vec()));
    // too short for a footer: the payload runs to the end
    assert_eq!(extract_smile_data(&framed(&[1, 2, 3], false)), Ok(vec![1, 2, 3]));
    assert_eq!(extract_smile_data(&framed(&[], true)), Ok(vec![]));
    let fifteen = [5u8; 15];
    assert_eq!(extract_smile_data(&framed(&fifteen, false)), Ok(fifteen.to_vec()));
    let sixteen = [5u8; 16];
    assert_eq!(extract_smile_data(&framed(&sixteen, false)), Ok(vec![]));
    assert_eq!(extract_smile_data(&[1, 2, 3]), Err(SnapshotError::InvalidFormat));
}

#[test]
fn compressed_payload_is_decompressed() {
    let inner = sample_files();
    let mut raw = vec![0x3F, 0xD7, 0x6C, 0x17, 8];
    raw.extend_from_slice(b"snapshot");
    raw.extend_from_slice(b"DFL\0");
    raw.extend(deflated(&inner));
    assert_eq!(extract_smile_data(&raw), Ok(inner.clone()));
    // what follows the stream is not looked at
    raw.extend_from_slice(&[0xC0, 0x28, 0x93, 0xE8, 0, 0, 0, 0, 1, 2, 3, 4, 5, 6, 7, 8]);
    assert_eq!(extract_smile_data(&raw), Ok(inner));
}

#[test]
fn corrupt_stream_is_rejected() {
    let stream = deflated(&[1u8; 500]);
    let mut raw = b"DFL\0".to_vec();
    raw.extend_from_slice(&stream[..stream.len() - 2]);
    assert_eq!(extract_smile_data(&raw), Err(SnapshotError::InvalidFormat));
    assert_eq!(extract_smile_data(b"DFL\0"), Err(SnapshotError::InvalidFormat));
    assert_eq!(extract_smile_data(b"DFL\0\xFF\xFF\xFF\xFF"), Err(SnapshotError::InvalidFormat));
}

#[test]
fn shard_file_list_from_framed_blob() {
    let raw = framed(&sample_files(), true);
    let smile_value = load_shard_metadata(&raw).unwrap();
    let files = parse_shard_files(&smile_value).unwrap();
    assert!(!files.is_empty(), "should have at least one file");
    let physical_names: Vec<&str> = files.iter().map(|f| f.physical_name.as_str()).collect();
    assert_eq!(physical_names, vec!["_0.cfs", "segments_3", "_0.si"]);
    assert!(physical_names.iter().any(|n| n.starts_with("segments_")), "should have a segments file");
    for f in &files {
        assert!(!f.blob_name.is_empty());
        assert!(!f.physical_name.is_empty());
        assert!(f.num_parts >= 1);
        if f.is_virtual {
            assert!(f.blob_name.starts_with("v__"));
            assert!(!f.meta_hash.is_empty());
        }
    }
    assert_eq!(files[0].blob_name, "__0KmMz-ttQ0entKtem7qBww");
    assert_eq!(files[0].length, 2500);
    assert_eq!(files[0].part_size, 1000);
    assert_eq!(files[0].num_parts, 3);
    assert!(!files[0].is_virtual);
    assert!(files[0].meta_hash.is_empty());
    assert!(files[1].is_virtual);
    assert_eq!(files[1].part_size, i64::MAX as u64);
    assert_eq!(files[1].num_parts, 1);
    assert_eq!(files[1].meta_hash, vec![9, 8, 7, 6]);
    assert_eq!(files[2].length, 0);
    assert_eq!(files[2].part_size, UNPARTITIONED);
    assert_eq!(files[2].num_parts, 1);
}

#[test]
fn shard_file_list_from_compressed_blob() {
    let mut raw = b"junk".to_vec();
    raw.extend_from_slice(b"DFL\0");
    raw.extend(deflated(&sample_files()));
    let files = parse_shard_files(&load_shard_metadata(&raw).unwrap()).unwrap();
    assert_eq!(files.len(), 3);
    assert_eq!(files[1].physical_name, "segments_3");
}

#[test]
fn blob_without_payload_is_rejected() {
    assert!(matches!(load_shard_metadata(&framed(&[], true)), Err(SnapshotError::InvalidFormat)));
    assert!(matches!(load_shard_metadata(&[]), Err(SnapshotError::InvalidFormat)));
    let mut raw = b"DFL\0".to_vec();
    raw.extend(deflated(&[0x3A, 0x29, 0x0A, 0x00, 0x27]));
    assert!(matches!(load_shard_metadata(&raw), Err(SnapshotError::InvalidFormat)));
}

#[test]
fn file_table_must_be_an_array_of_the_root_object() {
    let invalid = |v: SmileValue| matches!(parse_shard_files(&v), Err(SnapshotError::InvalidFormat));
    assert!(invalid(tree(object(&[("name", text("x"))]))));
    assert!(invalid(tree(object(&[("files", text("x"))]))));
    assert!(invalid(tree(array(&[]))));
    assert!(invalid(tree(object(&[("files", text("x")), ("files", array(&[]))]))));
    assert_eq!(parse_shard_files(&tree(object(&[("files", array(&[]))]))).unwrap().len(), 0);
}

#[test]
fn required_fields_are_checked() {
    let invalid = |f: Vec<u8>| matches!(parse_file_entry(&tree(f)), Err(SnapshotError::InvalidFormat));
    let n = ("name", text("__a"));
    let p = ("physical_name", text("_0.si"));
    let l = ("length", integer(5));
    assert!(parse_file_entry(&tree(object(&[n.clone(), p.clone(), l.clone()]))).is_ok());
    assert!(invalid(object(&[p.clone(), l.clone()])));
    assert!(invalid(object(&[n.clone(), l.clone()])));
    assert!(invalid(object(&[n.clone(), p.clone()])));
    assert!(invalid(object(&[("name", integer(1)), p.clone(), l.clone()])));
    assert!(invalid(object(&[n.clone(), ("physical_name", binary(&[1])), l.clone()])));
    assert!(invalid(object(&[n.clone(), p.clone(), ("length", text("5"))])));
    assert!(invalid(text("__a")));
    // one bad element fails the whole table
    let files = array(&[object(&[n.clone(), p.clone(), l.clone()]), object(&[n.clone(), p.clone()])]);
    assert!(matches!(
        parse_shard_files(&tree(object(&[("files", files)]))),
        Err(SnapshotError::InvalidFormat)
    ));
}

#[test]
fn optional_fields_of_another_kind_count_as_absent() {
    let f = parse_file_entry(&tree(object(&[
        ("name", text("__a")),
        ("physical_name", text("_0.si")),
        ("length", integer(5)),
        ("part_size", text("3")),
        ("meta_hash", integer(3)),
    ])))
    .unwrap();
    assert_eq!(f.part_size, UNPARTITIONED);
    assert_eq!(f.num_parts, 1);
    assert!(f.meta_hash.is_empty());
}

#[test]
fn part_size_zero_is_rejected() {
    let r = parse_file_entry(&tree(object(&[
        ("name", text("__a")),
        ("physical_name", text("_0.si")),
        ("length", integer(5)),
        ("part_size", integer(0)),
    ])));
    assert!(matches!(r, Err(SnapshotError::InvalidFormat)));
}

fn parts_of(length: i64, part_size: i64) -> u64 {
    parse_file_entry(&tree(object(&[
        ("name", text("__a")),
        ("physical_name", text("_0.si")),
        ("length", integer(length)),
        ("part_size", integer(part_size)),
    ])))
    .unwrap()
    .num_parts
}

#[test]
fn part_count_rounds_up_and_is_never_zero() {
    assert_eq!(parts_of(0, 3), 1);
    assert_eq!(parts_of(1, 3), 1);
    assert_eq!(parts_of(3, 3), 1);
    assert_eq!(parts_of(4, 3), 2);
    assert_eq!(parts_of(9, 3), 3);
    assert_eq!(parts_of(10, 3), 4);
    assert_eq!(parts_of(10, 1), 10);
    assert_eq!(parts_of(10, 100), 1);
    assert_eq!(parts_of(i64::MAX, 1), i64::MAX as u64);
    assert_eq!(parts_of(5, -1), 1);
    for length in 1..60i64 {
        for part_size in 1..20i64 {
            let n = parts_of(length, part_size) as i64;
            assert!(n >= 1);
            assert!((n - 1) * part_size < length && length <= n * part_size);
        }
    }
}

#[test]
fn negative_numbers_wrap() {
    assert_eq!(to_unsigned(0), 0);
    assert_eq!(to_unsigned(5), 5);
    assert_eq!(to_unsigned(-1), u64::MAX);
    assert_eq!(to_unsigned(i64::MIN), 1 << 63);
    assert_eq!(to_unsigned(i64::MAX), i64::MAX as u64);
    let f = parse_file_entry(&tree(object(&[
        ("name", text("__a")),
        ("physical_name", text("_0.si")),
        ("length", integer(-2)),
        ("part_size", integer(-1)),
    ])))
    .unwrap();
    assert_eq!(f.length, u64::MAX - 1);
    assert_eq!(f.part_size, UNPARTITIONED);
    assert_eq!(f.num_parts, 1);
}

fn entry(blob_name: &str, length: u64, part_size: u64, num_parts: u64) -> ShardFileEntry {
    ShardFileEntry {
        blob_name: blob_name.to_string(),
        physical_name: "_0.cfs".to_string(),
        length,
        part_size,
        num_parts,
        is_virtual: blob_name.starts_with("v__"),
        meta_hash: Vec::new(),
    }
}

#[test]
fn part_names_carry_the_part_number() {
    let single = entry("__blob", 10, UNPARTITIONED, 1);
    assert_eq!(single.part_name(0), "__blob");
    assert_eq!(single.part_name(7), "__blob");
    let multi = entry("__blob", 25, 10, 3);
    assert_eq!(multi.part_name(0), "__blob.part0");
    assert_eq!(multi.part_name(2), "__blob.part2");
    assert_eq!(multi.part_name(10), "__blob.part10");
    assert_eq!(multi.part_name(u64::MAX), "__blob.part18446744073709551615");
}

#[test]
fn clone_keeps_all_fields() {
    let mut e = entry("v__x", 3, 2, 2);
    e.meta_hash = vec![1, 2, 3];
    let c = e.clone();
    assert_eq!(c.blob_name, "v__x");
    assert_eq!(c.physical_name, "_0.cfs");
    assert_eq!((c.length, c.part_size, c.num_parts, c.is_virtual), (3, 2, 2, true));
    assert_eq!(c.meta_hash, vec![1, 2, 3]);
}
