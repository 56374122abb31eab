//! Shard metadata: the outer container, and the file table inside it.

use vstd::prelude::*;
use vstd::slice::{slice_subrange, slice_to_vec};
use vstd::string::*;
use crate::error::SnapshotError;
use crate::grammar::spec_parse;
use crate::smile::{tree_get, trees_of, SmileParser, SmileValue, Tree};
use crate::text::{decimal, lemma_decimal_parses, starts_with, u64_to_decimal};

verus! {

/// The codec magic that opens a framed container, as a big-endian number.
pub const LUCENE_CODEC_MAGIC: u32 = 0x3FD76C17;

/// The length of the footer that closes a framed container.
pub const FOOTER_LEN: usize = 16;

/// Whether the four bytes `D F L 0x00` stand at position `i`.
pub open spec fn dfl_at(data: Seq<u8>, i: int) -> bool {
    &&& 0 <= i
    &&& i + 4 <= data.len()
    &&& data[i] == 0x44
    &&& data[i + 1] == 0x46
    &&& data[i + 2] == 0x4C
    &&& data[i + 3] == 0x00
}

/// The first position at or after `from` at which the marker stands, or
/// the length of the data where it stands nowhere from there on.
pub open spec fn dfl_search(data: Seq<u8>, from: int) -> int
    decreases data.len() - from,
{
    if from < 0 || from + 4 > data.len() {
        data.len() as int
    } else if dfl_at(data, from) {
        from
    } else {
        dfl_search(data, from + 1)
    }
}

/// The first position at which the marker of a compressed container stands.
pub open spec fn spec_find_dfl(data: Seq<u8>) -> Option<int> {
    let i = dfl_search(data, 0);
    if i < data.len() {
        Some(i)
    } else {
        None
    }
}

/// `dfl_search` gives the least position from `from` on that holds the
/// marker, and the length of the data exactly where none does.
pub proof fn lemma_dfl_search(data: Seq<u8>, from: int)
    requires
        0 <= from,
    ensures
        forall|j: int| from <= j < dfl_search(data, from) ==> !dfl_at(data, j),
        dfl_search(data, from) < data.len() ==> from <= dfl_search(data, from) && dfl_at(
            data,
            dfl_search(data, from),
        ),
        dfl_search(data, from) >= data.len() ==> dfl_search(data, from) == data.len(),
    decreases data.len() - from,
{
    if from + 4 <= data.len() && !dfl_at(data, from) {
        lemma_dfl_search(data, from + 1);
    }
}

/// Finds the first place where the marker of a compressed container stands.
pub fn find_dfl_header(data: &[u8]) -> (r: Option<usize>)
    ensures
        match spec_find_dfl(data@) {
            Some(i) => r is Some && r->0 == i && i + 4 <= data@.len(),
            None => r is None,
        },
{
    if data.len() < 4 {
        return None;
    }
    let mut i: usize = 0;
    while i <= data.len() - 4
        invariant
            4 <= data.len(),
            i <= data.len() - 3,
            dfl_search(data@, 0) == dfl_search(data@, i as int),
        decreases data.len() - i,
    {
        if data[i] == 0x44 && data[i + 1] == 0x46 && data[i + 2] == 0x4C && data[i + 3] == 0x00 {
            return Some(i);
        }
        i += 1;
    }
    None
}

/// The number written in the other variable-length dialect, from byte `i`
/// of `data` on: each byte gives its low seven bits, least significant
/// first, and a set top bit says that another byte follows. No number has
/// more than five bytes.
pub open spec fn lucene_vint_from(data: Seq<u8>, i: int, acc: u32) -> Option<(u32, int)>
    decreases 5 - i,
{
    if i < 0 || i >= data.len() || i >= 5 {
        None
    } else {
        let value = acc | (((data[i] & 0x7F) as u32) << ((7 * i) as u32));
        if data[i] & 0x80 == 0 {
            Some((value, i + 1))
        } else {
            lucene_vint_from(data, i + 1, value)
        }
    }
}

/// The number at the start of `data` and the count of bytes that it takes.
pub open spec fn spec_lucene_vint(data: Seq<u8>) -> Option<(u32, int)> {
    lucene_vint_from(data, 0, 0)
}

/// Reads a number in the dialect of the codec header. Returns the number
/// and the count of bytes that it takes.
pub fn read_lucene_vint(data: &[u8]) -> (r: Result<(u32, usize), SnapshotError>)
    ensures
        match spec_lucene_vint(data@) {
            Some((v, n)) => r is Ok && r->Ok_0.0 == v && r->Ok_0.1 == n && 1 <= n <= 5 && n
                <= data@.len(),
            None => r == Err::<(u32, usize), SnapshotError>(SnapshotError::InvalidFormat),
        },
{
    let mut value: u32 = 0;
    let mut i: usize = 0;
    while i < data.len() && i < 5
        invariant
            i <= 5,
            i <= data@.len(),
            spec_lucene_vint(data@) == lucene_vint_from(data@, i as int, value),
        decreases 5 - i,
    {
        let b = data[i];
        let shift: u32 = 7 * (i as u32);
        value = value | (((b & 0x7F) as u32) << shift);
        if b & 0x80 == 0 {
            return Ok((value, i + 1));
        }
        i += 1;
    }
    Err(SnapshotError::InvalidFormat)
}

/// The first four bytes of `data` as a big-endian number.
pub open spec fn be_u32(data: Seq<u8>) -> int {
    data[0] * 0x100_0000 + data[1] * 0x1_0000 + data[2] * 0x100 + data[3]
}

/// The length of the codec header at the start of `data`: the magic, the
/// codec name with its length in front, and four bytes of version. There is
/// none where the data is shorter than eight bytes, the magic is another,
/// the length of the name is cut off or overlong, or the header would end
/// after the data.
pub open spec fn spec_codec_header_len(data: Seq<u8>) -> Option<int> {
    if data.len() >= 8 && be_u32(data) == LUCENE_CODEC_MAGIC {
        match spec_lucene_vint(data.subrange(4, data.len() as int)) {
            Some((name_len, used)) => if 4 + used + name_len + 4 <= data.len() {
                Some(4 + used + name_len + 4)
            } else {
                None
            },
            None => None,
        }
    } else {
        None
    }
}

/// Finds where the payload starts after a codec header.
pub fn skip_codec_header(data: &[u8]) -> (r: Result<usize, SnapshotError>)
    ensures
        match spec_codec_header_len(data@) {
            Some(n) => r is Ok && r->Ok_0 == n && 8 <= n <= data@.len(),
            None => r == Err::<usize, SnapshotError>(SnapshotError::InvalidFormat),
        },
{
    if data.len() < 8 {
        return Err(SnapshotError::InvalidFormat);
    }
    let magic: u32 = data[0] as u32 * 0x100_0000 + data[1] as u32 * 0x1_0000 + data[2] as u32
        * 0x100 + data[3] as u32;
    if magic != LUCENE_CODEC_MAGIC {
        return Err(SnapshotError::InvalidFormat);
    }
    let (name_len, vint_bytes) = read_lucene_vint(slice_subrange(data, 4, data.len()))?;
    let pos: u64 = 4 + vint_bytes as u64 + name_len as u64 + 4;
    if pos > data.len() as u64 {
        return Err(SnapshotError::InvalidFormat);
    }
    Ok(pos as usize)
}

/// What decompressing a raw DEFLATE stream gives, or `None` where the
/// stream is corrupt or incomplete.
pub uninterp spec fn inflated(stream: Seq<u8>) -> Option<Seq<u8>>;

/// `std::io::Error`, the error that a reader reports. Nothing is known of
/// what it holds.
#[verifier::external_type_specification]
#[verifier::external_body]
pub struct ExIoError(std::io::Error);

/// Runs `flate2::read::DeflateDecoder` over `stream` to its end. Taken on
/// trust: the decoder fails or succeeds, and gives the bytes that it gives,
/// by the stream alone; `inflated` is the name of that outcome, and nothing
/// else is claimed of it.
#[verifier::external_body]
fn inflate(stream: &[u8]) -> (r: Result<Vec<u8>, std::io::Error>)
    ensures
        match inflated(stream@) {
            Some(out) => r is Ok && r->Ok_0@ == out,
            None => r is Err,
        },
{
    let mut decoder = flate2::read::DeflateDecoder::new(stream);
    let mut out = Vec::new();
    std::io::Read::read_to_end(&mut decoder, &mut out)?;
    Ok(out)
}

/// The payload inside a container. Where the marker of a compressed
/// container stands anywhere in the bytes, the payload is what the bytes
/// after its first occurrence decompress to. Otherwise the bytes are framed:
/// the payload follows the codec header and ends before the footer, or at
/// the end where the bytes are too short to hold a footer.
pub open spec fn spec_payload(raw: Seq<u8>) -> Option<Seq<u8>> {
    match spec_find_dfl(raw) {
        Some(at) => inflated(raw.subrange(at + 4, raw.len() as int)),
        None => match spec_codec_header_len(raw) {
            Some(start) => if raw.len() >= start + FOOTER_LEN {
                Some(raw.subrange(start, raw.len() - FOOTER_LEN))
            } else {
                Some(raw.subrange(start, raw.len() as int))
            },
            None => None,
        },
    }
}

/// Takes the payload out of its container.
pub fn extract_smile_data(raw: &[u8]) -> (r: Result<Vec<u8>, SnapshotError>)
    ensures
        match spec_payload(raw@) {
            Some(payload) => r is Ok && r->Ok_0@ == payload,
            None => r is Err && r->Err_0 == SnapshotError::InvalidFormat,
        },
{
    match find_dfl_header(raw) {
        Some(at) => {
            let end = raw.len();
            match inflate(slice_subrange(raw, at + 4, end)) {
                Ok(out) => Ok(out),
                Err(_) => Err(SnapshotError::InvalidFormat),
            }
        },
        None => {
            let start = skip_codec_header(raw)?;
            let end = if raw.len() - start >= FOOTER_LEN {
                raw.len() - FOOTER_LEN
            } else {
                raw.len()
            };
            Ok(slice_to_vec(slice_subrange(raw, start, end)))
        },
    }
}

/// Decodes the bytes of a shard metadata blob: takes the payload out of its
/// container and decodes it.
pub fn load_shard_metadata(raw: &[u8]) -> (r: Result<SmileValue, SnapshotError>)
    ensures
        match spec_shard_metadata(raw@) {
            Some(t) => r is Ok && r->Ok_0@ == t,
            None => r is Err && r->Err_0 == SnapshotError::InvalidFormat,
        },
{
    let smile_data = extract_smile_data(raw)?;
    SmileParser::parse(smile_data.as_slice())
}

/// The tree that the bytes of a shard metadata blob hold.
pub open spec fn spec_shard_metadata(raw: Seq<u8>) -> Option<Tree> {
    match spec_payload(raw) {
        Some(payload) => spec_parse(payload),
        None => None,
    }
}

/// The part size of a file that is stored whole in a single blob.
pub const UNPARTITIONED: u64 = 0xFFFF_FFFF_FFFF_FFFF;

/// One file of a shard, as the file table describes it.
#[derive(Debug)]
pub struct ShardFileEntry {
    /// The base name of the blob, or of its parts, in the repository.
    pub blob_name: String,
    /// The name under which the file is presented.
    pub physical_name: String,
    /// The length of the file in bytes.
    pub length: u64,
    /// The length of each part but the last, or `UNPARTITIONED`.
    pub part_size: u64,
    /// The number of parts, at least one.
    pub num_parts: u64,
    /// Whether the contents are held in `meta_hash` rather than in a blob.
    pub is_virtual: bool,
    /// The meta hash; for a virtual file, its contents.
    pub meta_hash: Vec<u8>,
}

/// A file record as plain values.
pub struct FileRecord {
    pub blob_name: Seq<char>,
    pub physical_name: Seq<char>,
    pub length: u64,
    pub part_size: u64,
    pub num_parts: u64,
    pub is_virtual: bool,
    pub meta_hash: Seq<u8>,
}

impl View for ShardFileEntry {
    type V = FileRecord;

    open spec fn view(&self) -> FileRecord {
        FileRecord {
            blob_name: self.blob_name@,
            physical_name: self.physical_name@,
            length: self.length,
            part_size: self.part_size,
            num_parts: self.num_parts,
            is_virtual: self.is_virtual,
            meta_hash: self.meta_hash@,
        }
    }
}

impl Clone for ShardFileEntry {
    fn clone(&self) -> (r: Self)
        ensures
            r@ == self@,
    {
        ShardFileEntry {
            blob_name: self.blob_name.clone(),
            physical_name: self.physical_name.clone(),
            length: self.length,
            part_size: self.part_size,
            num_parts: self.num_parts,
            is_virtual: self.is_virtual,
            meta_hash: slice_to_vec(self.meta_hash.as_slice()),
        }
    }
}

/// The number of parts of a file: one where the file is unpartitioned,
/// else the length divided by the part size and rounded up, and never zero.
pub open spec fn spec_num_parts(length: u64, part_size: u64) -> u64 {
    if part_size == UNPARTITIONED || part_size == 0 {
        1
    } else {
        let whole = length / part_size;
        let n = if length % part_size > 0 {
            whole + 1
        } else {
            whole as int
        };
        if n == 0 {
            1
        } else {
            n as u64
        }
    }
}

/// A file has at least one part. Where it is partitioned and not empty,
/// its length lies above what all parts but the last hold and within what
/// all parts hold.
pub proof fn lemma_num_parts(length: u64, part_size: u64)
    ensures
        spec_num_parts(length, part_size) >= 1,
        part_size != UNPARTITIONED && part_size > 0 && length > 0 ==> (spec_num_parts(
            length,
            part_size,
        ) - 1) * part_size < length <= spec_num_parts(length, part_size) * part_size,
{
    if part_size != UNPARTITIONED && part_size > 0 {
        let whole = length / part_size;
        let rem = length % part_size;
        assert(length == whole * part_size + rem && 0 <= rem < part_size && whole <= length)
            by (nonlinear_arith)
            requires
                part_size > 0,
                whole == length / part_size,
                rem == length % part_size,
        ;
        assert((whole + 1) * part_size == whole * part_size + part_size) by (nonlinear_arith);
        assert((whole - 1) * part_size == whole * part_size - part_size) by (nonlinear_arith);
        if rem > 0 {
            assert(whole + 1 <= u64::MAX) by {
                if whole == u64::MAX {
                    assert(whole * part_size >= whole) by (nonlinear_arith)
                        requires
                            part_size >= 1,
                            whole >= 0,
                    ;
                }
            }
        }
    }
}

/// Whether a blob name marks a virtual file: it begins with `v__`.
pub open spec fn has_virtual_prefix(name: Seq<char>) -> bool {
    "v__"@.is_prefix_of(name)
}

/// The invariant of a file record: the part count is the one that length
/// and part size give, the part size is not zero, and the virtual flag is
/// set exactly where the blob name marks a virtual file.
pub open spec fn record_wf(rec: FileRecord) -> bool {
    &&& rec.part_size > 0
    &&& rec.num_parts == spec_num_parts(rec.length, rec.part_size)
    &&& rec.is_virtual == has_virtual_prefix(rec.blob_name)
}

/// The name of the blob that holds part `part` of a file: the base name for
/// a file of one part, else the base name, `.part` and the part number in
/// decimal.
pub open spec fn spec_part_name(rec: FileRecord, part: u64) -> Seq<char> {
    if rec.num_parts > 1 {
        rec.blob_name + ".part"@ + decimal(part as nat)
    } else {
        rec.blob_name
    }
}

/// The parts of a file of several parts have names of their own.
pub proof fn lemma_part_names_distinct(rec: FileRecord, p: u64, q: u64)
    requires
        rec.num_parts > 1,
        p != q,
    ensures
        spec_part_name(rec, p) != spec_part_name(rec, q),
{
    let prefix = rec.blob_name + ".part"@;
    let a = prefix + decimal(p as nat);
    let b = prefix + decimal(q as nat);
    lemma_decimal_parses(p as nat, u64::MAX as nat);
    lemma_decimal_parses(q as nat, u64::MAX as nat);
    if a == b {
        assert(a.subrange(prefix.len() as int, a.len() as int) =~= decimal(p as nat));
        assert(b.subrange(prefix.len() as int, b.len() as int) =~= decimal(q as nat));
    }
}

impl ShardFileEntry {
    /// Whether the record keeps its invariant.
    pub fn is_well_formed(&self) -> (r: bool)
        ensures
            r == record_wf(self@),
    {
        if self.part_size == 0 {
            return false;
        }
        let expected = if self.part_size == UNPARTITIONED {
            1
        } else {
            let whole = self.length / self.part_size;
            if self.length % self.part_size > 0 {
                proof {
                    assert(self.part_size >= 2);
                    vstd::arithmetic::div_mod::lemma_div_is_ordered_by_denominator(
                        self.length as int,
                        2,
                        self.part_size as int,
                    );
                }
                whole + 1
            } else if whole == 0 {
                1
            } else {
                whole
            }
        };
        self.num_parts == expected && self.is_virtual == starts_with(self.blob_name.as_str(), "v__")
    }

    /// The name of the blob that holds part `part`.
    pub fn part_name(&self, part: u64) -> (r: String)
        ensures
            r@ == spec_part_name(self@, part),
    {
        if self.num_parts > 1 {
            let mut name = self.blob_name.clone();
            name.append(".part");
            name.append(u64_to_decimal(part).as_str());
            name
        } else {
            self.blob_name.clone()
        }
    }
}

/// An integer read as unsigned 64 bits: a negative one wraps around.
pub open spec fn as_unsigned(n: i64) -> u64 {
    if n >= 0 {
        n as u64
    } else {
        (n + 0x1_0000_0000_0000_0000) as u64
    }
}

/// Reads an integer as unsigned 64 bits.
pub fn to_unsigned(n: i64) -> (r: u64)
    ensures
        r == as_unsigned(n),
{
    if n >= 0 {
        n as u64
    } else {
        ((n + 0x7FFF_FFFF_FFFF_FFFF) + 1) as u64 + 0x8000_0000_0000_0000
    }
}

/// The file record that one element of the file table describes. The
/// element gives `name` and `physical_name` as strings and `length` as an
/// integer; `part_size` and `meta_hash` count only where they are an
/// integer and a byte sequence. There is no record where one of the first
/// three is missing or of another kind, or where the part size is zero.
pub open spec fn spec_file_record(t: Tree) -> Option<FileRecord> {
    match (tree_get(t, "name"@), tree_get(t, "physical_name"@), tree_get(t, "length"@)) {
        (Some(Tree::String(name)), Some(Tree::String(physical_name)), Some(Tree::Int(length))) => {
            let part_size = match tree_get(t, "part_size"@) {
                Some(Tree::Int(n)) => as_unsigned(n),
                _ => UNPARTITIONED,
            };
            let meta_hash = match tree_get(t, "meta_hash"@) {
                Some(Tree::Binary(b)) => b,
                _ => Seq::empty(),
            };
            if part_size == 0 {
                None
            } else {
                Some(
                    FileRecord {
                        blob_name: name,
                        physical_name,
                        length: as_unsigned(length),
                        part_size,
                        num_parts: spec_num_parts(as_unsigned(length), part_size),
                        is_virtual: has_virtual_prefix(name),
                        meta_hash,
                    },
                )
            }
        },
        _ => None,
    }
}

/// The file records of a shard: one for each element of the array `files`
/// of the root object, in order. There are none where the root has no such
/// array or an element gives no record.
pub open spec fn spec_shard_files(root: Tree) -> Option<Seq<FileRecord>> {
    match tree_get(root, "files"@) {
        Some(Tree::Array(files)) => if forall|i: int|
            0 <= i < files.len() ==> (#[trigger] spec_file_record(files[i])) is Some {
            Some(Seq::new(files.len(), |i: int| spec_file_record(files[i])->0))
        } else {
            None
        },
        _ => None,
    }
}

/// The records of a sequence of entries, in order.
pub open spec fn records_of(entries: Seq<ShardFileEntry>) -> Seq<FileRecord> {
    Seq::new(entries.len(), |i: int| entries[i]@)
}

/// Projects one element of the file table into a file record.
pub fn parse_file_entry(file: &SmileValue) -> (r: Result<ShardFileEntry, SnapshotError>)
    ensures
        match spec_file_record(file@) {
            Some(rec) => r is Ok && r->Ok_0@ == rec && record_wf(rec),
            None => r is Err && r->Err_0 == SnapshotError::InvalidFormat,
        },
{
    let name = match file.get("name") {
        Some(v) => match v.as_str() {
            Some(s) => s,
            None => { return Err(SnapshotError::InvalidFormat); },
        },
        None => { return Err(SnapshotError::InvalidFormat); },
    };
    let physical_name = match file.get("physical_name") {
        Some(v) => match v.as_str() {
            Some(s) => s,
            None => { return Err(SnapshotError::InvalidFormat); },
        },
        None => { return Err(SnapshotError::InvalidFormat); },
    };
    let length = match file.get("length") {
        Some(v) => match v.as_i64() {
            Some(n) => to_unsigned(n),
            None => { return Err(SnapshotError::InvalidFormat); },
        },
        None => { return Err(SnapshotError::InvalidFormat); },
    };
    let part_size = match file.get("part_size") {
        Some(v) => match v.as_i64() {
            Some(n) => to_unsigned(n),
            None => UNPARTITIONED,
        },
        None => UNPARTITIONED,
    };
    let meta_hash = match file.get("meta_hash") {
        Some(v) => match v.as_bytes() {
            Some(b) => slice_to_vec(b),
            None => Vec::new(),
        },
        None => Vec::new(),
    };
    if part_size == 0 {
        return Err(SnapshotError::InvalidFormat);
    }
    let is_virtual = starts_with(name, "v__");
    let num_parts = if part_size == UNPARTITIONED {
        1
    } else {
        let mut n = length / part_size;
        if length % part_size > 0 {
            proof {
                assert(part_size >= 2);
                vstd::arithmetic::div_mod::lemma_div_is_ordered_by_denominator(
                    length as int,
                    2,
                    part_size as int,
                );
            }
            n += 1;
        }
        if n == 0 {
            1
        } else {
            n
        }
    };
    Ok(
        ShardFileEntry {
            blob_name: String::from_str(name),
            physical_name: String::from_str(physical_name),
            length,
            part_size,
            num_parts,
            is_virtual,
            meta_hash,
        },
    )
}

/// Projects a decoded shard metadata tree into its file records.
pub fn parse_shard_files(root: &SmileValue) -> (r: Result<Vec<ShardFileEntry>, SnapshotError>)
    ensures
        match spec_shard_files(root@) {
            Some(recs) => r is Ok && records_of(r->Ok_0@) == recs && forall|i: int|
                0 <= i < recs.len() ==> record_wf(#[trigger] recs[i]),
            None => r is Err && r->Err_0 == SnapshotError::InvalidFormat,
        },
{
    let files = match root.get("files") {
        Some(v) => match v.as_array() {
            Some(a) => a,
            None => { return Err(SnapshotError::InvalidFormat); },
        },
        None => { return Err(SnapshotError::InvalidFormat); },
    };
    let ghost trees = trees_of(files@);
    let mut entries: Vec<ShardFileEntry> = Vec::new();
    let mut i: usize = 0;
    while i < files.len()
        invariant
            i <= files@.len(),
            entries@.len() == i,
            trees == trees_of(files@),
            tree_get(root@, "files"@) == Some(Tree::Array(trees)),
            forall|j: int| 0 <= j < i ==> (#[trigger] spec_file_record(trees[j])) is Some,
            forall|j: int|
                0 <= j < i ==> (#[trigger] entries@[j])@ == spec_file_record(trees[j])->0
                    && record_wf(entries@[j]@),
        decreases files@.len() - i,
    {
        assert(trees[i as int] == files@[i as int]@);
        let entry = match parse_file_entry(&files[i]) {
            Ok(entry) => entry,
            Err(e) => {
                assert(spec_file_record(trees[i as int]) is None);
                return Err(e);
            },
        };
        entries.push(entry);
        i += 1;
    }
    proof {
        assert(records_of(entries@) =~= spec_shard_files(root@)->0);
    }
    Ok(entries)
}

} // verus!
