//! The table of entries, and what lookups and listings find in it.

use vstd::prelude::*;
use vstd::string::*;
use crate::attr::{
    dir_attr, file_attr, make_dir_attr, make_file_attr, FileAttr, FileKind, ROOT_INO,
};
use crate::error::SnapshotError;
use crate::metadata::{FileRecord, ShardFileEntry};
use crate::repo::IndexModel;
use crate::text::{decimal, lemma_decimal_parses, spec_parse_unsigned, str_eq, u64_to_decimal};

verus! {

/// The greatest number of shards of one index that get a directory: shard
/// identifiers have 32 bits.
pub const MAX_SHARDS: usize = 0xFFFF_FFFF;

/// An entry of the table.
#[derive(Debug)]
pub enum InodeEntry {
    Root,
    IndexDir { name: String },
    ShardDir { index_name: String, shard_id: u32 },
    LuceneFile { index_name: String, shard_id: u32, file_entry: ShardFileEntry },
}

/// An entry of the table as plain values.
pub enum Entry {
    Root,
    IndexDir { name: Seq<char> },
    ShardDir { index_name: Seq<char>, shard_id: u32 },
    LuceneFile { index_name: Seq<char>, shard_id: u32, file: FileRecord },
}

impl View for InodeEntry {
    type V = Entry;

    open spec fn view(&self) -> Entry {
        match self {
            InodeEntry::Root => Entry::Root,
            InodeEntry::IndexDir { name } => Entry::IndexDir { name: name@ },
            InodeEntry::ShardDir { index_name, shard_id } => Entry::ShardDir {
                index_name: index_name@,
                shard_id: *shard_id,
            },
            InodeEntry::LuceneFile { index_name, shard_id, file_entry } => Entry::LuceneFile {
                index_name: index_name@,
                shard_id: *shard_id,
                file: file_entry@,
            },
        }
    }
}

impl Clone for InodeEntry {
    fn clone(&self) -> (r: Self)
        ensures
            r@ == self@,
    {
        match self {
            InodeEntry::Root => InodeEntry::Root,
            InodeEntry::IndexDir { name } => InodeEntry::IndexDir { name: name.clone() },
            InodeEntry::ShardDir { index_name, shard_id } => InodeEntry::ShardDir {
                index_name: index_name.clone(),
                shard_id: *shard_id,
            },
            InodeEntry::LuceneFile { index_name, shard_id, file_entry } => InodeEntry::LuceneFile {
                index_name: index_name.clone(),
                shard_id: *shard_id,
                file_entry: file_entry.clone(),
            },
        }
    }
}

/// The entries that a sequence of table entries stands for, in order.
pub open spec fn entries_of(v: Seq<InodeEntry>) -> Seq<Entry> {
    Seq::new(v.len(), |i: int| v[i]@)
}

/// The number of shard directories of an index with `num_shards` shards.
pub open spec fn shard_dir_count(num_shards: nat) -> nat {
    if num_shards <= MAX_SHARDS as nat + 1 {
        num_shards
    } else {
        MAX_SHARDS as nat + 1
    }
}

/// The directories of the indices, in the order of the indices.
pub open spec fn index_dirs(indices: Seq<IndexModel>) -> Seq<Entry> {
    Seq::new(indices.len(), |i: int| Entry::IndexDir { name: indices[i].name })
}

/// The shard directories of one index, in ascending order of shards.
pub open spec fn shards_of(ix: IndexModel) -> Seq<Entry> {
    Seq::new(
        shard_dir_count(ix.num_shards),
        |s: int| Entry::ShardDir { index_name: ix.name, shard_id: s as u32 },
    )
}

/// The shard directories of the indices: index after index, and within an
/// index in ascending order of shards.
pub open spec fn shard_dirs(indices: Seq<IndexModel>) -> Seq<Entry>
    decreases indices.len(),
{
    if indices.len() == 0 {
        Seq::empty()
    } else {
        shard_dirs(indices.drop_last()) + shards_of(indices.last())
    }
}

/// The table of a new filesystem: the root, then the index directories,
/// then the shard directories.
pub open spec fn initial_table(indices: Seq<IndexModel>) -> Seq<Entry> {
    seq![Entry::Root] + index_dirs(indices) + shard_dirs(indices)
}

/// The file entries that the records of one shard give, in order.
pub open spec fn file_entries(index_name: Seq<char>, shard_id: u32, recs: Seq<FileRecord>) -> Seq<
    Entry,
> {
    Seq::new(recs.len(), |i: int| Entry::LuceneFile { index_name, shard_id, file: recs[i] })
}

/// The entry with identifier `ino`.
pub open spec fn spec_entry(table: Seq<Entry>, ino: u64) -> Option<Entry> {
    if 1 <= ino <= table.len() {
        Some(table[ino - 1])
    } else {
        None
    }
}

/// Whether `e` stands directly below `parent`: an index directory below the
/// root, a shard directory below its index directory, a file below its
/// shard directory.
pub open spec fn is_child(parent: Entry, e: Entry) -> bool {
    match parent {
        Entry::Root => e is IndexDir,
        Entry::IndexDir { name } => e matches Entry::ShardDir { index_name, .. } && index_name
            == name,
        Entry::ShardDir { index_name, shard_id } => e matches Entry::LuceneFile {
            index_name: n,
            shard_id: s,
            ..
        } && n == index_name && s == shard_id,
        Entry::LuceneFile { .. } => false,
    }
}

/// The name under which an entry is listed in its directory.
pub open spec fn entry_name(e: Entry) -> Seq<char> {
    match e {
        Entry::Root => Seq::empty(),
        Entry::IndexDir { name } => name,
        Entry::ShardDir { shard_id, .. } => decimal(shard_id as nat),
        Entry::LuceneFile { file, .. } => file.physical_name,
    }
}

/// What an entry is to the kernel.
pub open spec fn entry_kind(e: Entry) -> FileKind {
    if e is LuceneFile {
        FileKind::RegularFile
    } else {
        FileKind::Directory
    }
}

/// The attributes of the entry `e` with identifier `ino`.
pub open spec fn attr_of(e: Entry, ino: u64) -> FileAttr {
    match e {
        Entry::LuceneFile { file, .. } => file_attr(ino, file.length),
        _ => dir_attr(ino),
    }
}

/// Whether `e` is what the name `name` means below `parent`. Below an index
/// directory the name is read as a number and means the shard of that
/// number; elsewhere it means the child that is listed under it.
pub open spec fn answers(parent: Entry, e: Entry, name: Seq<char>) -> bool {
    is_child(parent, e) && match e {
        Entry::ShardDir { shard_id, .. } => spec_parse_unsigned(name, u32::MAX as nat) == Some(
            shard_id as nat,
        ),
        _ => entry_name(e) == name,
    }
}

/// The first position at or after `from` whose entry answers to `name`
/// below `parent`, or the length of the table where none does.
pub open spec fn first_answer(table: Seq<Entry>, parent: Entry, name: Seq<char>, from: int) -> int
    decreases table.len() - from,
{
    if from < 0 || from >= table.len() {
        table.len() as int
    } else if answers(parent, table[from], name) {
        from
    } else {
        first_answer(table, parent, name, from + 1)
    }
}

/// The identifier of the child of `parent_ino` that `name` means: that of
/// the first entry of the table that answers to it.
pub open spec fn spec_find_child(table: Seq<Entry>, parent_ino: u64, name: Seq<char>) -> Option<
    u64,
> {
    match spec_entry(table, parent_ino) {
        Some(parent) => {
            let i = first_answer(table, parent, name, 0);
            if i < table.len() {
                Some((i + 1) as u64)
            } else {
                None
            }
        },
        None => None,
    }
}

/// `first_answer` is the least position from `from` on that answers.
pub proof fn lemma_first_answer(table: Seq<Entry>, parent: Entry, name: Seq<char>, from: int)
    requires
        0 <= from <= table.len(),
    ensures
        from <= first_answer(table, parent, name, from) <= table.len(),
        forall|j: int|
            from <= j < first_answer(table, parent, name, from) ==> !answers(
                parent,
                table[j],
                name,
            ),
        first_answer(table, parent, name, from) < table.len() ==> answers(
            parent,
            table[first_answer(table, parent, name, from)],
            name,
        ),
    decreases table.len() - from,
{
    if from < table.len() && !answers(parent, table[from], name) {
        lemma_first_answer(table, parent, name, from + 1);
    }
}

/// Every child answers to the name under which it is listed.
pub proof fn lemma_listed_name_answers(parent: Entry, e: Entry)
    requires
        is_child(parent, e),
    ensures
        answers(parent, e, entry_name(e)),
{
    if let Entry::ShardDir { shard_id, .. } = e {
        lemma_decimal_parses(shard_id as nat, u32::MAX as nat);
    }
}

/// The name under which a directory lists one of its children resolves:
/// to that child, or to one before it in the table that answers to the
/// same name.
pub proof fn lemma_listed_names_resolve(table: Seq<Entry>, parent_ino: u64, i: int)
    requires
        spec_entry(table, parent_ino) is Some,
        0 <= i < table.len(),
        table.len() <= u64::MAX,
        is_child(table[parent_ino - 1], table[i]),
    ensures
        spec_find_child(table, parent_ino, entry_name(table[i])) matches Some(ino) && 1 <= ino <= i
            + 1 && answers(table[parent_ino - 1], table[ino - 1], entry_name(table[i])),
{
    let parent = table[parent_ino - 1];
    let name = entry_name(table[i]);
    lemma_listed_name_answers(parent, table[i]);
    lemma_first_answer(table, parent, name, 0);
}

/// What a name resolves to below a parent: the identifier of the child and
/// its attributes. An unknown parent and an unknown name are not found; a
/// file has no children.
pub open spec fn spec_lookup(table: Seq<Entry>, parent_ino: u64, name: Seq<char>) -> Result<
    (u64, FileAttr),
    SnapshotError,
> {
    match spec_entry(table, parent_ino) {
        None => Err(SnapshotError::NotFound),
        Some(Entry::LuceneFile { .. }) => Err(SnapshotError::NotADirectory),
        Some(_) => match spec_find_child(table, parent_ino, name) {
            Some(ino) => Ok((ino, attr_of(table[ino - 1], ino))),
            None => Err(SnapshotError::NotFound),
        },
    }
}

/// What asking for the attributes of `ino` gives.
pub open spec fn spec_getattr(table: Seq<Entry>, ino: u64) -> Result<FileAttr, SnapshotError> {
    match spec_entry(table, ino) {
        Some(e) => Ok(attr_of(e, ino)),
        None => Err(SnapshotError::NotFound),
    }
}

/// One line of a directory listing.
#[derive(Debug)]
pub struct DirEntry {
    pub ino: u64,
    pub kind: FileKind,
    pub name: String,
}

/// One line of a directory listing as plain values.
pub struct DirItem {
    pub ino: u64,
    pub kind: FileKind,
    pub name: Seq<char>,
}

impl View for DirEntry {
    type V = DirItem;

    open spec fn view(&self) -> DirItem {
        DirItem { ino: self.ino, kind: self.kind, name: self.name@ }
    }
}

/// The lines that a sequence of listing entries stands for, in order.
pub open spec fn items_of(v: Seq<DirEntry>) -> Seq<DirItem> {
    Seq::new(v.len(), |i: int| v[i]@)
}

/// The children of `parent` among the first `upto` entries of the table,
/// in the order of the table.
pub open spec fn children(table: Seq<Entry>, parent: Entry, upto: int) -> Seq<DirItem>
    decreases upto,
{
    if upto <= 0 || upto > table.len() {
        Seq::empty()
    } else if is_child(parent, table[upto - 1]) {
        children(table, parent, upto - 1).push(
            DirItem {
                ino: upto as u64,
                kind: entry_kind(table[upto - 1]),
                name: entry_name(table[upto - 1]),
            },
        )
    } else {
        children(table, parent, upto - 1)
    }
}

/// The whole listing of the directory `ino`: the directory itself as `.`,
/// the root as `..`, then the children in the order of the table.
pub open spec fn listing(table: Seq<Entry>, ino: u64) -> Seq<DirItem> {
    seq![
        DirItem { ino, kind: FileKind::Directory, name: "."@ },
        DirItem { ino: ROOT_INO, kind: FileKind::Directory, name: ".."@ },
    ] + children(table, table[ino - 1], table.len() as int)
}

/// What listing `ino` from position `offset` on gives. An unknown
/// identifier is not found and a file is no directory; a negative offset
/// and one past the end give no lines.
pub open spec fn spec_readdir(table: Seq<Entry>, ino: u64, offset: i64) -> Result<
    Seq<DirItem>,
    SnapshotError,
> {
    match spec_entry(table, ino) {
        None => Err(SnapshotError::NotFound),
        Some(Entry::LuceneFile { .. }) => Err(SnapshotError::NotADirectory),
        Some(_) => {
            let all = listing(table, ino);
            if 0 <= offset <= all.len() {
                Ok(all.subrange(offset as int, all.len() as int))
            } else {
                Ok(Seq::empty())
            }
        },
    }
}

/// An identifier that was issued keeps its entry when the table grows.
pub proof fn lemma_identifiers_stable(before: Seq<Entry>, after: Seq<Entry>, ino: u64)
    requires
        before.is_prefix_of(after),
        spec_entry(before, ino) is Some,
    ensures
        spec_entry(after, ino) == spec_entry(before, ino),
{
}

/// The attributes of `entry` with identifier `ino`.
pub(crate) fn entry_attr(entry: &InodeEntry, ino: u64) -> (r: FileAttr)
    ensures
        r == attr_of(entry@, ino),
{
    match entry {
        InodeEntry::LuceneFile { file_entry, .. } => make_file_attr(ino, file_entry.length),
        _ => make_dir_attr(ino),
    }
}

/// What `entry` is to the kernel.
pub(crate) fn kind_of(entry: &InodeEntry) -> (r: FileKind)
    ensures
        r == entry_kind(entry@),
{
    match entry {
        InodeEntry::LuceneFile { .. } => FileKind::RegularFile,
        _ => FileKind::Directory,
    }
}

/// The name under which `entry` is listed.
pub(crate) fn name_of(entry: &InodeEntry) -> (r: String)
    ensures
        r@ == entry_name(entry@),
{
    match entry {
        InodeEntry::Root => String::new(),
        InodeEntry::IndexDir { name } => name.clone(),
        InodeEntry::ShardDir { shard_id, .. } => u64_to_decimal(*shard_id as u64),
        InodeEntry::LuceneFile { file_entry, .. } => file_entry.physical_name.clone(),
    }
}

/// Whether `entry` stands directly below `parent`.
pub(crate) fn is_child_entry(parent: &InodeEntry, entry: &InodeEntry) -> (r: bool)
    ensures
        r == is_child(parent@, entry@),
{
    match parent {
        InodeEntry::Root => match entry {
            InodeEntry::IndexDir { .. } => true,
            _ => false,
        },
        InodeEntry::IndexDir { name } => match entry {
            InodeEntry::ShardDir { index_name, .. } => str_eq(index_name.as_str(), name.as_str()),
            _ => false,
        },
        InodeEntry::ShardDir { index_name, shard_id } => match entry {
            InodeEntry::LuceneFile { index_name: n, shard_id: s, .. } => *s == *shard_id && str_eq(
                n.as_str(),
                index_name.as_str(),
            ),
            _ => false,
        },
        InodeEntry::LuceneFile { .. } => false,
    }
}

/// Whether `entry` is what `name` means below `parent`; `wanted` is the
/// number that the name denotes, if it denotes one.
pub(crate) fn entry_answers(
    parent: &InodeEntry,
    entry: &InodeEntry,
    name: &str,
    wanted: Option<u32>,
) -> (r: bool)
    requires
        match spec_parse_unsigned(name@, u32::MAX as nat) {
            Some(v) => wanted == Some(v as u32),
            None => wanted is None,
        },
    ensures
        r == answers(parent@, entry@, name@),
{
    if !is_child_entry(parent, entry) {
        return false;
    }
    match entry {
        InodeEntry::Root => false,
        InodeEntry::IndexDir { name: n } => str_eq(n.as_str(), name),
        InodeEntry::ShardDir { shard_id, .. } => match wanted {
            Some(v) => v == *shard_id,
            None => false,
        },
        InodeEntry::LuceneFile { file_entry, .. } => str_eq(
            file_entry.physical_name.as_str(),
            name,
        ),
    }
}

} // verus!
