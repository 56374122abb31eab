//! The virtual filesystem: a table of entries that only grows, and the
//! operations that answer lookups, listings and reads from it.

use vstd::prelude::*;
use vstd::string::*;
use crate::attr::{FileAttr, FileKind, ROOT_INO};
use crate::error::SnapshotError;
use crate::metadata::{
    as_unsigned, load_shard_metadata, parse_shard_files, record_wf, records_of, spec_part_name,
    spec_shard_files, spec_shard_metadata, to_unsigned, FileRecord, ShardFileEntry,
};
use crate::order::{insert_sorted, normalize};
use crate::plan::{content_slice, spec_read_plan, PartRead};
use crate::repo::{index_models, lookup_index, IndexModel, RepoModel, ResolvedIndex, ResolvedRepo};
use crate::table::{
    answers, children, entries_of, entry_answers, entry_attr, file_entries, first_answer,
    index_dirs, initial_table, is_child_entry, items_of, kind_of, name_of, shard_dirs, shards_of,
    spec_entry, spec_find_child, spec_getattr, spec_lookup, spec_readdir, DirEntry, DirItem,
    Entry, InodeEntry, MAX_SHARDS,
};
use crate::text::{parse_u32, spec_parse_unsigned, str_eq};

verus! {

/// Where a blob lies below the repository root: in the directory
/// `indices/<index_id>/<shard_id>/`, under the name `file_name`.
#[derive(Debug)]
pub struct BlobLocation {
    pub index_id: String,
    pub shard_id: u32,
    pub file_name: String,
}

/// A blob location as plain values.
pub struct LocationModel {
    pub index_id: Seq<char>,
    pub shard_id: u32,
    pub file_name: Seq<char>,
}

impl View for BlobLocation {
    type V = LocationModel;

    open spec fn view(&self) -> LocationModel {
        LocationModel {
            index_id: self.index_id@,
            shard_id: self.shard_id,
            file_name: self.file_name@,
        }
    }
}

/// The name of the metadata blob of a shard in the snapshot `snapshot_id`.
pub open spec fn metadata_name(snapshot_id: Seq<char>) -> Seq<char> {
    "snap-"@ + snapshot_id + ".dat"@
}

/// The shard that waits to be loaded at `ino`: `ino` is the directory of a
/// shard of a known index whose files are not in the table yet.
pub open spec fn pending_shard(
    table: Seq<Entry>,
    loaded: Set<(Seq<char>, u32)>,
    repo: RepoModel,
    ino: u64,
) -> Option<(Seq<char>, u32, IndexModel)> {
    match spec_entry(table, ino) {
        Some(Entry::ShardDir { index_name, shard_id }) => match lookup_index(
            repo.indices,
            index_name,
        ) {
            Some(ix) => if loaded.contains((index_name, shard_id)) {
                None
            } else {
                Some((index_name, shard_id, ix))
            },
            None => None,
        },
        _ => None,
    }
}

/// Where the metadata of the shard that waits at `ino` lies.
pub open spec fn spec_pending_load(
    table: Seq<Entry>,
    loaded: Set<(Seq<char>, u32)>,
    repo: RepoModel,
    ino: u64,
) -> Option<LocationModel> {
    match pending_shard(table, loaded, repo, ino) {
        Some((_, shard_id, ix)) => Some(
            LocationModel {
                index_id: ix.id,
                shard_id,
                file_name: metadata_name(repo.snapshot_id),
            },
        ),
        None => None,
    }
}

/// One ranged read against a blob.
#[derive(Debug)]
pub struct BlobRead {
    /// The name of the blob in the directory of its shard.
    pub file_name: String,
    /// Where in the blob the read starts.
    pub offset: u64,
    /// How many bytes are read.
    pub len: u64,
}

/// A ranged read against a blob as plain values.
pub struct BlobReadModel {
    pub file_name: Seq<char>,
    pub offset: u64,
    pub len: u64,
}

impl View for BlobRead {
    type V = BlobReadModel;

    open spec fn view(&self) -> BlobReadModel {
        BlobReadModel { file_name: self.file_name@, offset: self.offset, len: self.len }
    }
}

/// The reads that a sequence of blob reads stands for, in order.
pub open spec fn reads_of(v: Seq<BlobRead>) -> Seq<BlobReadModel> {
    Seq::new(v.len(), |i: int| v[i]@)
}

/// How a read request is answered: with bytes that are at hand, or by
/// reading ranges of blobs in the directory `indices/<index_id>/<shard_id>/`
/// in the given order and joining what they give. Where one of the reads
/// fails, the answer is what the reads before it gave.
#[derive(Debug)]
pub enum ReadAction {
    Data(Vec<u8>),
    Blobs { index_id: String, shard_id: u32, reads: Vec<BlobRead> },
}

/// An answer to a read request as plain values.
pub enum ReadModel {
    Data(Seq<u8>),
    Blobs { index_id: Seq<char>, shard_id: u32, reads: Seq<BlobReadModel> },
}

impl View for ReadAction {
    type V = ReadModel;

    open spec fn view(&self) -> ReadModel {
        match self {
            ReadAction::Data(d) => ReadModel::Data(d@),
            ReadAction::Blobs { index_id, shard_id, reads } => ReadModel::Blobs {
                index_id: index_id@,
                shard_id: *shard_id,
                reads: reads_of(reads@),
            },
        }
    }
}

/// The blob reads that a plan of part reads means for a file.
pub open spec fn blob_reads(file: FileRecord, plan: Seq<PartRead>) -> Seq<BlobReadModel> {
    Seq::new(
        plan.len(),
        |i: int|
            BlobReadModel {
                file_name: spec_part_name(file, plan[i].part_index),
                offset: plan[i].offset,
                len: plan[i].len,
            },
    )
}

/// How reading `size` bytes of a file from `offset` on is answered. A
/// request at or past the end of the file gives no bytes, and so does a
/// file of an unknown index or with a record that does not keep its
/// invariant. A virtual file is served from its meta hash, any other file
/// from its parts.
pub open spec fn spec_read_file(
    repo: RepoModel,
    index_name: Seq<char>,
    shard_id: u32,
    file: FileRecord,
    offset: u64,
    size: u32,
) -> ReadModel {
    if offset >= file.length || !record_wf(file) {
        ReadModel::Data(Seq::empty())
    } else {
        match lookup_index(repo.indices, index_name) {
            None => ReadModel::Data(Seq::empty()),
            Some(ix) => if file.is_virtual {
                ReadModel::Data(content_slice(file.meta_hash, offset, size))
            } else {
                ReadModel::Blobs {
                    index_id: ix.id,
                    shard_id,
                    reads: blob_reads(file, spec_read_plan(file, offset, size as u64)),
                }
            },
        }
    }
}

/// How a read request on `ino` is answered. An unknown identifier is not
/// found, and a directory cannot be read. A negative offset counts as the
/// unsigned number of the same bits.
pub open spec fn spec_read(table: Seq<Entry>, repo: RepoModel, ino: u64, offset: i64, size: u32)
    -> Result<ReadModel, SnapshotError> {
    match spec_entry(table, ino) {
        None => Err(SnapshotError::NotFound),
        Some(Entry::LuceneFile { index_name, shard_id, file }) => Ok(
            spec_read_file(repo, index_name, shard_id, file, as_unsigned(offset), size),
        ),
        Some(_) => Err(SnapshotError::IsADirectory),
    }
}

/// Whether `new_table` and `new_loaded` are what installing the records
/// `recs` at `ino` makes of `table` and `loaded`, and `done` says whether
/// anything was installed. Where a shard waits at `ino`, its files are
/// appended to the table in the order of the records and the shard is
/// marked as loaded; else nothing changes.
pub open spec fn installs(
    table: Seq<Entry>,
    loaded: Set<(Seq<char>, u32)>,
    repo: RepoModel,
    ino: u64,
    recs: Seq<FileRecord>,
    new_table: Seq<Entry>,
    new_loaded: Set<(Seq<char>, u32)>,
    done: bool,
) -> bool {
    match pending_shard(table, loaded, repo, ino) {
        Some((index_name, shard_id, _)) => {
            &&& done
            &&& new_table == table + file_entries(index_name, shard_id, recs)
            &&& new_loaded == loaded.insert((index_name, shard_id))
        },
        None => !done && new_table == table && new_loaded == loaded,
    }
}

/// The outcome of an operation that depends on the files of a shard: the
/// answer, or the request to load the shard first. The caller then reads
/// the blob at the location, hands it to `load_shard`, and asks again; where
/// the blob cannot be read or decoded, it takes the answer from the table
/// as it stands, in which the shard is empty.
#[derive(Debug)]
pub enum Step<T> {
    Done(T),
    LoadShard(BlobLocation),
}

/// The filesystem over one snapshot. Identifiers are positions in a table
/// that only grows: the entry with identifier `n` stands at position
/// `n - 1`, and the root has identifier 1.
pub struct SnapshotFs {
    repo_root: String,
    resolved: ResolvedRepo,
    inodes: Vec<InodeEntry>,
    loaded_shards: Vec<(String, u32)>,
}

impl SnapshotFs {
    /// The path of the repository.
    pub closed spec fn root(&self) -> Seq<char> {
        self.repo_root@
    }

    /// The snapshot, with its indices in ascending order of names.
    pub closed spec fn repo(&self) -> RepoModel {
        self.resolved@
    }

    /// The table of entries.
    pub closed spec fn table(&self) -> Seq<Entry> {
        entries_of(self.inodes@)
    }

    /// The shards whose files are in the table.
    pub closed spec fn loaded(&self) -> Set<(Seq<char>, u32)> {
        Set::new(
            |k: (Seq<char>, u32)|
                exists|i: int|
                    0 <= i < self.loaded_shards@.len() && (#[trigger] self.loaded_shards@[i]).0@
                        == k.0 && self.loaded_shards@[i].1 == k.1,
        )
    }

    /// A filesystem over the snapshot `resolved` of the repository at
    /// `repo_root`. No shard is loaded yet.
    pub fn new(repo_root: String, resolved: ResolvedRepo) -> (fs: Self)
        ensures
            fs.root() == repo_root@,
            fs.repo() == (RepoModel {
                snapshot_id: resolved@.snapshot_id,
                snapshot_name: resolved@.snapshot_name,
                indices: normalize(resolved@.indices),
            }),
            fs.table() == initial_table(normalize(resolved@.indices)),
            fs.loaded() == Set::<(Seq<char>, u32)>::empty(),
    {
        let ghost given = resolved@.indices;
        let mut sorted: Vec<ResolvedIndex> = Vec::new();
        let mut i: usize = 0;
        assert(given.subrange(0, 0) =~= Seq::<IndexModel>::empty());
        assert(index_models(sorted@) =~= Seq::<IndexModel>::empty());
        while i < resolved.indices.len()
            invariant
                i <= resolved.indices@.len(),
                given == resolved@.indices,
                index_models(sorted@) == normalize(given.subrange(0, i as int)),
            decreases resolved.indices@.len() - i,
        {
            assert(given.subrange(0, i + 1).drop_last() =~= given.subrange(0, i as int));
            insert_sorted(&mut sorted, resolved.indices[i].clone());
            i += 1;
        }
        assert(given.subrange(0, i as int) =~= given);
        let ghost indices = index_models(sorted@);

        let mut inodes: Vec<InodeEntry> = Vec::new();
        inodes.push(InodeEntry::Root);
        let mut k: usize = 0;
        while k < sorted.len()
            invariant
                k <= sorted@.len(),
                indices == index_models(sorted@),
                entries_of(inodes@) == seq![Entry::Root] + index_dirs(indices).subrange(
                    0,
                    k as int,
                ),
                inodes@.len() == k + 1,
            decreases sorted@.len() - k,
        {
            let ghost prev = entries_of(inodes@);
            let name = sorted[k].name.clone();
            assert(name@ == indices[k as int].name);
            inodes.push(InodeEntry::IndexDir { name });
            assert(entries_of(inodes@) =~= prev.push(
                Entry::IndexDir { name: indices[k as int].name },
            ));
            k += 1;
            assert(entries_of(inodes@) =~= seq![Entry::Root] + index_dirs(indices).subrange(
                0,
                k as int,
            ));
        }
        assert(index_dirs(indices).subrange(0, k as int) =~= index_dirs(indices));
        assert(indices.subrange(0, 0) =~= Seq::<IndexModel>::empty());
        assert(entries_of(inodes@) =~= seq![Entry::Root] + index_dirs(indices) + shard_dirs(
            indices.subrange(0, 0),
        ));

        let mut k: usize = 0;
        while k < sorted.len()
            invariant
                k <= sorted@.len(),
                indices == index_models(sorted@),
                entries_of(inodes@) == seq![Entry::Root] + index_dirs(indices) + shard_dirs(
                    indices.subrange(0, k as int),
                ),
            decreases sorted@.len() - k,
        {
            let ghost base = entries_of(inodes@);
            let num_shards = sorted[k].num_shards;
            let mut shard: usize = 0;
            while shard < num_shards && shard <= MAX_SHARDS
                invariant
                    k < sorted@.len(),
                    indices == index_models(sorted@),
                    num_shards == sorted@[k as int].num_shards,
                    shard <= num_shards,
                    shard <= MAX_SHARDS + 1,
                    entries_of(inodes@) == base + shards_of(indices[k as int]).subrange(
                        0,
                        shard as int,
                    ),
                decreases num_shards - shard,
            {
                let ghost prev = entries_of(inodes@);
                let index_name = sorted[k].name.clone();
                assert(index_name@ == indices[k as int].name);
                inodes.push(InodeEntry::ShardDir { index_name, shard_id: shard as u32 });
                assert(entries_of(inodes@) =~= prev.push(
                    Entry::ShardDir { index_name: indices[k as int].name, shard_id: shard as u32 },
                ));
                shard += 1;
                assert(entries_of(inodes@) =~= base + shards_of(indices[k as int]).subrange(
                    0,
                    shard as int,
                ));
            }
            assert(shards_of(indices[k as int]).subrange(0, shard as int) =~= shards_of(
                indices[k as int],
            ));
            k += 1;
            assert(indices.subrange(0, k as int).drop_last() =~= indices.subrange(0, k - 1));
            assert(entries_of(inodes@) =~= seq![Entry::Root] + index_dirs(indices) + shard_dirs(
                indices.subrange(0, k as int),
            ));
        }
        assert(indices.subrange(0, k as int) =~= indices);
        let resolved = ResolvedRepo {
            snapshot_id: resolved.snapshot_id,
            snapshot_name: resolved.snapshot_name,
            indices: sorted,
        };
        let fs = SnapshotFs { repo_root, resolved, inodes, loaded_shards: Vec::new() };
        assert(fs.loaded() =~= Set::<(Seq<char>, u32)>::empty());
        fs
    }

    /// The path of the repository.
    pub fn repo_root(&self) -> (r: &str)
        ensures
            r@ == self.root(),
    {
        self.repo_root.as_str()
    }

    /// The snapshot, with its indices in ascending order of names.
    pub fn resolved(&self) -> (r: &ResolvedRepo)
        ensures
            r@ == self.repo(),
    {
        &self.resolved
    }

    /// The position in the table of the entry with identifier `ino`.
    pub fn inode_to_index(ino: u64) -> (idx: usize)
        requires
            1 <= ino,
            ino - 1 <= usize::MAX,
        ensures
            idx == ino - 1,
    {
        (ino - 1) as usize
    }

    /// The identifier of the entry at position `idx` of the table.
    pub fn index_to_inode(idx: usize) -> (ino: u64)
        requires
            idx < usize::MAX,
        ensures
            ino == idx + 1,
    {
        (idx + 1) as u64
    }

    /// The entry with identifier `ino`.
    pub fn get_entry(&self, ino: u64) -> (r: Option<&InodeEntry>)
        ensures
            match spec_entry(self.table(), ino) {
                Some(e) => r is Some && r->0@ == e,
                None => r is None,
            },
    {
        if ino >= 1 && ino - 1 < self.inodes.len() as u64 {
            Some(&self.inodes[Self::inode_to_index(ino)])
        } else {
            None
        }
    }

    /// The identifier of the child of `parent_ino` that `name` means.
    pub fn find_child_inode(&self, parent_ino: u64, name: &str) -> (r: Option<u64>)
        ensures
            r == spec_find_child(self.table(), parent_ino, name@),
            r matches Some(ino) ==> 1 <= ino <= self.table().len() && answers(
                self.table()[parent_ino - 1],
                self.table()[ino - 1],
                name@,
            ),
    {
        let parent = match self.get_entry(parent_ino) {
            Some(p) => p,
            None => { return None; },
        };
        let wanted = parse_u32(name);
        let ghost table = self.table();
        let mut i: usize = 0;
        while i < self.inodes.len()
            invariant
                i <= self.inodes@.len(),
                table == self.table(),
                spec_entry(table, parent_ino) == Some(parent@),
                match spec_parse_unsigned(name@, u32::MAX as nat) {
                    Some(v) => wanted == Some(v as u32),
                    None => wanted is None,
                },
                first_answer(table, parent@, name@, 0) == first_answer(
                    table,
                    parent@,
                    name@,
                    i as int,
                ),
            decreases self.inodes@.len() - i,
        {
            if entry_answers(parent, &self.inodes[i], name, wanted) {
                assert(self.table()[i as int] == self.inodes@[i as int]@);
                return Some(Self::index_to_inode(i));
            }
            i += 1;
        }
        None
    }

    /// The attributes of `ino`.
    pub fn getattr(&self, ino: u64) -> (r: Result<FileAttr, SnapshotError>)
        ensures
            r == spec_getattr(self.table(), ino),
    {
        match self.get_entry(ino) {
            Some(entry) => Ok(entry_attr(entry, ino)),
            None => Err(SnapshotError::NotFound),
        }
    }

    /// Resolves `name` below `parent` in the table as it stands: the files
    /// of a shard that is not loaded are not found.
    pub fn lookup_in_table(&self, parent: u64, name: &str) -> (r: Result<
        (u64, FileAttr),
        SnapshotError,
    >)
        ensures
            r == spec_lookup(self.table(), parent, name@),
    {
        match self.get_entry(parent) {
            None => { return Err(SnapshotError::NotFound); },
            Some(InodeEntry::LuceneFile { .. }) => { return Err(SnapshotError::NotADirectory); },
            Some(_) => {},
        }
        match self.find_child_inode(parent, name) {
            Some(ino) => {
                match self.get_entry(ino) {
                    Some(entry) => Ok((ino, entry_attr(entry, ino))),
                    None => Err(SnapshotError::NotFound),
                }
            },
            None => Err(SnapshotError::NotFound),
        }
    }

    /// Lists the directory `ino` from position `offset` on, from the table
    /// as it stands: a shard that is not loaded has no files. The line at
    /// position `k` of the result stands at position `offset + k` of the
    /// listing.
    pub fn readdir_in_table(&self, ino: u64, offset: i64) -> (r: Result<
        Vec<DirEntry>,
        SnapshotError,
    >)
        ensures
            match spec_readdir(self.table(), ino, offset) {
                Ok(items) => r is Ok && items_of(r->Ok_0@) == items,
                Err(e) => r is Err && r->Err_0 == e,
            },
    {
        let parent = match self.get_entry(ino) {
            None => { return Err(SnapshotError::NotFound); },
            Some(InodeEntry::LuceneFile { .. }) => { return Err(SnapshotError::NotADirectory); },
            Some(p) => p,
        };
        let ghost table = self.table();
        let mut entries: Vec<DirEntry> = Vec::new();
        entries.push(DirEntry { ino, kind: FileKind::Directory, name: String::from_str(".") });
        entries.push(
            DirEntry { ino: ROOT_INO, kind: FileKind::Directory, name: String::from_str("..") },
        );
        let ghost head = items_of(entries@);
        assert(head =~= seq![
            DirItem { ino, kind: FileKind::Directory, name: "."@ },
            DirItem { ino: ROOT_INO, kind: FileKind::Directory, name: ".."@ },
        ]);
        assert(head + children(table, parent@, 0) =~= head);
        let mut i: usize = 0;
        while i < self.inodes.len()
            invariant
                i <= self.inodes@.len(),
                table == self.table(),
                items_of(entries@) == head + children(table, parent@, i as int),
            decreases self.inodes@.len() - i,
        {
            let entry = &self.inodes[i];
            if is_child_entry(parent, entry) {
                let ghost before = items_of(entries@);
                let item = DirEntry {
                    ino: Self::index_to_inode(i),
                    kind: kind_of(entry),
                    name: name_of(entry),
                };
                let ghost model = item@;
                entries.push(item);
                assert(items_of(entries@) =~= before.push(model));
            }
            i += 1;
            assert(items_of(entries@) =~= head + children(table, parent@, i as int));
        }
        if offset < 0 || offset as u64 > entries.len() as u64 {
            let none: Vec<DirEntry> = Vec::new();
            assert(items_of(none@) =~= Seq::<DirItem>::empty());
            return Ok(none);
        }
        let ghost all = items_of(entries@);
        let tail = entries.split_off(offset as usize);
        assert(items_of(tail@) =~= all.subrange(offset as int, all.len() as int));
        Ok(tail)
    }

    /// Resolves `name` below `parent`. Where `parent` is a shard that waits
    /// to be loaded, the answer is the request to load it.
    pub fn lookup(&self, parent: u64, name: &str) -> (r: Step<
        Result<(u64, FileAttr), SnapshotError>,
    >)
        ensures
            match spec_pending_load(self.table(), self.loaded(), self.repo(), parent) {
                Some(location) => r matches Step::LoadShard(l) && l@ == location,
                None => r matches Step::Done(answer) && answer == spec_lookup(
                    self.table(),
                    parent,
                    name@,
                ),
            },
    {
        match self.pending_shard_load(parent) {
            Some(location) => Step::LoadShard(location),
            None => Step::Done(self.lookup_in_table(parent, name)),
        }
    }

    /// Lists the directory `ino` from position `offset` on. Where `ino` is
    /// a shard that waits to be loaded, the answer is the request to load
    /// it.
    pub fn readdir(&self, ino: u64, offset: i64) -> (r: Step<Result<Vec<DirEntry>, SnapshotError>>)
        ensures
            match spec_pending_load(self.table(), self.loaded(), self.repo(), ino) {
                Some(location) => r matches Step::LoadShard(l) && l@ == location,
                None => r matches Step::Done(answer) && match spec_readdir(
                    self.table(),
                    ino,
                    offset,
                ) {
                    Ok(items) => answer is Ok && items_of(answer->Ok_0@) == items,
                    Err(e) => answer is Err && answer->Err_0 == e,
                },
            },
    {
        match self.pending_shard_load(ino) {
            Some(location) => Step::LoadShard(location),
            None => Step::Done(self.readdir_in_table(ino, offset)),
        }
    }

    /// Whether the files of a shard are in the table.
    pub fn is_shard_loaded(&self, index_name: &str, shard_id: u32) -> (r: bool)
        ensures
            r == self.loaded().contains((index_name@, shard_id)),
    {
        let mut i: usize = 0;
        while i < self.loaded_shards.len()
            invariant
                i <= self.loaded_shards@.len(),
                forall|j: int|
                    0 <= j < i ==> !((#[trigger] self.loaded_shards@[j]).0@ == index_name@
                        && self.loaded_shards@[j].1 == shard_id),
            decreases self.loaded_shards@.len() - i,
        {
            if self.loaded_shards[i].1 == shard_id && str_eq(
                self.loaded_shards[i].0.as_str(),
                index_name,
            ) {
                return true;
            }
            i += 1;
        }
        false
    }

    /// Where the metadata of the shard at `ino` lies, if that shard waits
    /// to be loaded. The caller reads the blob and hands it to `load_shard`;
    /// where it cannot be read, the shard stays empty and waits on.
    pub fn pending_shard_load(&self, ino: u64) -> (r: Option<BlobLocation>)
        ensures
            match spec_pending_load(self.table(), self.loaded(), self.repo(), ino) {
                Some(loc) => r is Some && r->0@ == loc,
                None => r is None,
            },
    {
        match self.get_entry(ino) {
            Some(InodeEntry::ShardDir { index_name, shard_id }) => {
                let ix = match self.resolved.get(index_name.as_str()) {
                    Some(ix) => ix,
                    None => { return None; },
                };
                if self.is_shard_loaded(index_name.as_str(), *shard_id) {
                    return None;
                }
                let mut file_name = String::from_str("snap-");
                file_name.append(self.resolved.snapshot_id.as_str());
                file_name.append(".dat");
                Some(BlobLocation { index_id: ix.id.clone(), shard_id: *shard_id, file_name })
            },
            _ => None,
        }
    }

    /// Appends the files of the shard at `ino` to the table and marks the
    /// shard as loaded. Nothing changes where no shard waits at `ino`.
    pub fn install_shard_files(&mut self, ino: u64, files: Vec<ShardFileEntry>) -> (r: bool)
        ensures
            final(self).root() == old(self).root(),
            final(self).repo() == old(self).repo(),
            old(self).table().is_prefix_of(final(self).table()),
            installs(
                old(self).table(),
                old(self).loaded(),
                old(self).repo(),
                ino,
                records_of(files@),
                final(self).table(),
                final(self).loaded(),
                r,
            ),
    {
        let (index_name, shard_id) = match self.get_entry(ino) {
            Some(InodeEntry::ShardDir { index_name, shard_id }) => (index_name.clone(), *shard_id),
            _ => { return false; },
        };
        if self.resolved.get(index_name.as_str()).is_none() {
            return false;
        }
        if self.is_shard_loaded(index_name.as_str(), shard_id) {
            return false;
        }
        let ghost recs = records_of(files@);
        let ghost base = self.table();
        let ghost name = index_name@;
        assert(base + file_entries(name, shard_id, recs.subrange(0, 0)) =~= base);
        let mut i: usize = 0;
        while i < files.len()
            invariant
                i <= files@.len(),
                recs == records_of(files@),
                self.table() == base + file_entries(name, shard_id, recs.subrange(0, i as int)),
                self.root() == old(self).root(),
                self.repo() == old(self).repo(),
                self.loaded() == old(self).loaded(),
                name == index_name@,
            decreases files@.len() - i,
        {
            let ghost t0 = self.table();
            let file_entry = files[i].clone();
            assert(file_entry@ == recs[i as int]);
            self.inodes.push(
                InodeEntry::LuceneFile { index_name: index_name.clone(), shard_id, file_entry },
            );
            i += 1;
            proof {
                let added = Entry::LuceneFile { index_name: name, shard_id, file: recs[i - 1] };
                assert(self.table() =~= t0.push(added));
                assert(t0.push(added) =~= base + file_entries(
                    name,
                    shard_id,
                    recs.subrange(0, i as int),
                ));
            }
        }
        assert(recs.subrange(0, i as int) =~= recs);
        let ghost marks = self.loaded();
        let ghost before = self.loaded_shards@;
        self.loaded_shards.push((index_name, shard_id));
        proof {
            let after = self.loaded_shards@;
            let n = before.len() as int;
            assert(after[n].0@ == name && after[n].1 == shard_id);
            assert forall|k: (Seq<char>, u32)| marks.contains(k) implies self.loaded().contains(
                k,
            ) by {
                let i = choose|i: int|
                    0 <= i < before.len() && (#[trigger] before[i]).0@ == k.0 && before[i].1
                        == k.1;
                assert(after[i].0@ == k.0 && after[i].1 == k.1);
            }
            assert forall|k: (Seq<char>, u32)|
                self.loaded().contains(k) && k != (name, shard_id) implies marks.contains(k) by {
                let i = choose|i: int|
                    0 <= i < after.len() && (#[trigger] after[i]).0@ == k.0 && after[i].1 == k.1;
                assert(before[i].0@ == k.0 && before[i].1 == k.1);
            }
            assert(self.loaded() =~= marks.insert((name, shard_id)));
        }
        true
    }

    /// Plans how `size` bytes of the file `file_entry` from `offset` on are
    /// served.
    pub fn read_file_data(
        &self,
        file_entry: &ShardFileEntry,
        index_name: &str,
        shard_id: u32,
        offset: u64,
        size: u32,
    ) -> (r: ReadAction)
        ensures
            r@ == spec_read_file(self.repo(), index_name@, shard_id, file_entry@, offset, size),
    {
        if offset >= file_entry.length || !file_entry.is_well_formed() {
            return ReadAction::Data(Vec::new());
        }
        let ix = match self.resolved.get(index_name) {
            Some(ix) => ix,
            None => { return ReadAction::Data(Vec::new()); },
        };
        if file_entry.is_virtual {
            return ReadAction::Data(file_entry.read_virtual(offset, size));
        }
        let plan = file_entry.read_plan(offset, size);
        let ghost wanted = blob_reads(file_entry@, plan@);
        let mut reads: Vec<BlobRead> = Vec::new();
        let mut i: usize = 0;
        while i < plan.len()
            invariant
                i <= plan@.len(),
                wanted == blob_reads(file_entry@, plan@),
                reads@.len() == i,
                forall|j: int| 0 <= j < i ==> (#[trigger] reads@[j])@ == wanted[j],
            decreases plan@.len() - i,
        {
            reads.push(
                BlobRead {
                    file_name: file_entry.part_name(plan[i].part_index),
                    offset: plan[i].offset,
                    len: plan[i].len,
                },
            );
            i += 1;
        }
        assert(reads_of(reads@) =~= wanted);
        ReadAction::Blobs { index_id: ix.id.clone(), shard_id, reads }
    }

    /// Plans how a read of `size` bytes of `ino` from `offset` on is
    /// answered.
    pub fn read(&self, ino: u64, offset: i64, size: u32) -> (r: Result<ReadAction, SnapshotError>)
        ensures
            match spec_read(self.table(), self.repo(), ino, offset, size) {
                Ok(action) => r is Ok && r->Ok_0@ == action,
                Err(e) => r is Err && r->Err_0 == e,
            },
    {
        match self.get_entry(ino) {
            None => Err(SnapshotError::NotFound),
            Some(InodeEntry::LuceneFile { index_name, shard_id, file_entry }) => {
                Ok(
                    self.read_file_data(
                        file_entry,
                        index_name.as_str(),
                        *shard_id,
                        to_unsigned(offset),
                        size,
                    ),
                )
            },
            Some(_) => Err(SnapshotError::IsADirectory),
        }
    }

    /// Takes the metadata blob of the shard at `ino`, or `None` where the
    /// blob could not be read, and installs the files that it holds.
    /// Returns whether the shard was loaded by this call. Where there is no
    /// blob or its bytes cannot be decoded, nothing changes and the shard
    /// waits on.
    pub fn load_shard(&mut self, ino: u64, blob: Option<&[u8]>) -> (r: Result<bool, SnapshotError>)
        ensures
            final(self).root() == old(self).root(),
            final(self).repo() == old(self).repo(),
            old(self).table().is_prefix_of(final(self).table()),
            match spec_load_outcome(blob) {
                Ok(recs) => r is Ok && installs(
                    old(self).table(),
                    old(self).loaded(),
                    old(self).repo(),
                    ino,
                    recs,
                    final(self).table(),
                    final(self).loaded(),
                    r->Ok_0,
                ),
                Err(e) => r is Err && r->Err_0 == e && final(self).table() == old(self).table()
                    && final(self).loaded() == old(self).loaded(),
            },
    {
        let raw = match blob {
            Some(raw) => raw,
            None => { return Err(SnapshotError::Io); },
        };
        let tree = load_shard_metadata(raw)?;
        let files = parse_shard_files(&tree)?;
        Ok(self.install_shard_files(ino, files))
    }
}

/// The file records that a shard metadata blob holds: a blob that could not
/// be read is an I/O error, and one that cannot be decoded is malformed.
pub open spec fn spec_load_outcome(blob: Option<&[u8]>) -> Result<Seq<FileRecord>, SnapshotError> {
    match blob {
        None => Err(SnapshotError::Io),
        Some(raw) => match spec_shard_records(raw@) {
            Some(recs) => Ok(recs),
            None => Err(SnapshotError::InvalidFormat),
        },
    }
}

/// The file records that the bytes of a shard metadata blob hold.
pub open spec fn spec_shard_records(raw: Seq<u8>) -> Option<Seq<FileRecord>> {
    match spec_shard_metadata(raw) {
        Some(tree) => spec_shard_files(tree),
        None => None,
    }
}

} // verus!
