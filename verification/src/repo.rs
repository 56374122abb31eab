//! The repository index: which snapshots there are, and which indices and
//! shards belong to each.

use vstd::prelude::*;
use vstd::string::*;
use crate::error::SnapshotError;
use crate::text::{parse_u32, parse_u64, spec_parse_unsigned, starts_with, str_eq, texts};

verus! {

/// One snapshot as the repository index lists it.
#[derive(Debug)]
pub struct SnapshotEntry {
    pub name: String,
    pub uuid: String,
    /// Where present, the pairs of an index identifier and a metadata key:
    /// the identifiers are those of the indices in the snapshot.
    pub index_metadata_lookup: Option<Vec<(String, String)>>,
}

/// One index as the repository index lists it.
#[derive(Debug)]
pub struct IndexEntry {
    pub id: String,
    /// The identifiers of the snapshots that hold the index.
    pub snapshots: Vec<String>,
    /// One entry for each shard, where the repository records them.
    pub shard_generations: Vec<String>,
}

/// The repository index.
#[derive(Debug)]
pub struct RepoMetadata {
    pub snapshots: Vec<SnapshotEntry>,
    /// The indices by name.
    pub indices: Vec<(String, IndexEntry)>,
    pub index_metadata_identifiers: Vec<(String, String)>,
}

/// An index of the chosen snapshot.
#[derive(Debug)]
pub struct ResolvedIndex {
    pub name: String,
    /// The directory of the index under `indices/`.
    pub id: String,
    /// The shards are numbered from zero up to this count.
    pub num_shards: usize,
}

/// The chosen snapshot and its indices. Where two indices have one name,
/// the later one counts.
#[derive(Debug)]
pub struct ResolvedRepo {
    pub snapshot_id: String,
    pub snapshot_name: String,
    pub indices: Vec<ResolvedIndex>,
}

/// A snapshot entry as plain values.
pub struct SnapshotModel {
    pub name: Seq<char>,
    pub uuid: Seq<char>,
    /// The index identifiers of the lookup, where the entry has one.
    pub lookup: Option<Seq<Seq<char>>>,
}

/// An index entry as plain values.
pub struct IndexEntryModel {
    pub id: Seq<char>,
    pub snapshots: Seq<Seq<char>>,
    /// The number of shard generations.
    pub shard_generations: nat,
}

/// The repository index as plain values.
pub struct MetadataModel {
    pub snapshots: Seq<SnapshotModel>,
    pub indices: Seq<(Seq<char>, IndexEntryModel)>,
}

/// The first components of a sequence of pairs of strings, in order.
pub open spec fn first_texts(v: Seq<(String, String)>) -> Seq<Seq<char>> {
    Seq::new(v.len(), |i: int| v[i].0@)
}

impl View for SnapshotEntry {
    type V = SnapshotModel;

    open spec fn view(&self) -> SnapshotModel {
        SnapshotModel {
            name: self.name@,
            uuid: self.uuid@,
            lookup: match self.index_metadata_lookup {
                Some(pairs) => Some(first_texts(pairs@)),
                None => None,
            },
        }
    }
}

impl View for IndexEntry {
    type V = IndexEntryModel;

    open spec fn view(&self) -> IndexEntryModel {
        IndexEntryModel {
            id: self.id@,
            snapshots: texts(self.snapshots@),
            shard_generations: self.shard_generations@.len(),
        }
    }
}

impl View for RepoMetadata {
    type V = MetadataModel;

    open spec fn view(&self) -> MetadataModel {
        MetadataModel {
            snapshots: Seq::new(self.snapshots@.len(), |i: int| self.snapshots@[i]@),
            indices: Seq::new(
                self.indices@.len(),
                |i: int| (self.indices@[i].0@, self.indices@[i].1@),
            ),
        }
    }
}

/// A resolved index as plain values.
pub struct IndexModel {
    pub name: Seq<char>,
    pub id: Seq<char>,
    pub num_shards: nat,
}

/// A resolved repository as plain values.
pub struct RepoModel {
    pub snapshot_id: Seq<char>,
    pub snapshot_name: Seq<char>,
    pub indices: Seq<IndexModel>,
}

impl View for ResolvedIndex {
    type V = IndexModel;

    open spec fn view(&self) -> IndexModel {
        IndexModel { name: self.name@, id: self.id@, num_shards: self.num_shards as nat }
    }
}

/// The models of a sequence of resolved indices, in order.
pub open spec fn index_models(v: Seq<ResolvedIndex>) -> Seq<IndexModel> {
    Seq::new(v.len(), |i: int| v[i]@)
}

impl View for ResolvedRepo {
    type V = RepoModel;

    open spec fn view(&self) -> RepoModel {
        RepoModel {
            snapshot_id: self.snapshot_id@,
            snapshot_name: self.snapshot_name@,
            indices: index_models(self.indices@),
        }
    }
}

impl Clone for ResolvedIndex {
    fn clone(&self) -> (r: Self)
        ensures
            r@ == self@,
    {
        ResolvedIndex {
            name: self.name.clone(),
            id: self.id.clone(),
            num_shards: self.num_shards,
        }
    }
}

/// The position of the last index named `name` among the first `upto`, or
/// -1 where there is none.
pub open spec fn index_position(indices: Seq<IndexModel>, name: Seq<char>, upto: int) -> int
    decreases upto,
{
    if upto <= 0 || upto > indices.len() {
        -1
    } else if indices[upto - 1].name == name {
        upto - 1
    } else {
        index_position(indices, name, upto - 1)
    }
}

/// The index that a name stands for: the last one of that name.
pub open spec fn lookup_index(indices: Seq<IndexModel>, name: Seq<char>) -> Option<IndexModel> {
    let i = index_position(indices, name, indices.len() as int);
    if i >= 0 {
        Some(indices[i])
    } else {
        None
    }
}

/// `index_position` is the greatest position below `upto` with the name.
pub proof fn lemma_index_position(indices: Seq<IndexModel>, name: Seq<char>, upto: int)
    requires
        0 <= upto <= indices.len(),
    ensures
        -1 <= index_position(indices, name, upto) < upto,
        index_position(indices, name, upto) >= 0 ==> indices[index_position(
            indices,
            name,
            upto,
        )].name == name,
        forall|j: int| index_position(indices, name, upto) < j < upto ==> indices[j].name != name,
    decreases upto,
{
    if upto > 0 && indices[upto - 1].name != name {
        lemma_index_position(indices, name, upto - 1);
    }
}

impl ResolvedRepo {
    /// The index named `name`.
    pub fn get(&self, name: &str) -> (r: Option<&ResolvedIndex>)
        ensures
            match lookup_index(self@.indices, name@) {
                Some(ix) => r is Some && r->0@ == ix,
                None => r is None,
            },
    {
        let mut i: usize = self.indices.len();
        while i > 0
            invariant
                i <= self.indices@.len(),
                index_position(self@.indices, name@, self.indices@.len() as int) == index_position(
                    self@.indices,
                    name@,
                    i as int,
                ),
            decreases i,
        {
            i -= 1;
            if str_eq(self.indices[i].name.as_str(), name) {
                return Some(&self.indices[i]);
            }
        }
        None
    }
}

/// The number that the name of a repository index file carries: the name
/// is `index-` followed by an unsigned number of at most 64 bits.
pub open spec fn index_number(name: Seq<char>) -> Option<nat> {
    if "index-"@.is_prefix_of(name) {
        spec_parse_unsigned(
            name.subrange("index-"@.len() as int, name.len() as int),
            u64::MAX as nat,
        )
    } else {
        None
    }
}

/// The greatest number among the first `upto` names and the first position
/// that carries it.
pub open spec fn best_index(names: Seq<Seq<char>>, upto: int) -> Option<(nat, int)>
    decreases upto,
{
    if upto <= 0 || upto > names.len() {
        None
    } else {
        let before = best_index(names, upto - 1);
        match index_number(names[upto - 1]) {
            Some(n) => match before {
                Some((best, _)) => if n > best {
                    Some((n, upto - 1))
                } else {
                    before
                },
                None => Some((n, upto - 1)),
            },
            None => before,
        }
    }
}

/// `best_index` finds none exactly where no name carries a number. What it
/// finds is the number of the name at the position it gives, no name
/// carries a greater number, and no name before that position carries the
/// same.
pub proof fn lemma_best_index(names: Seq<Seq<char>>, upto: int)
    requires
        0 <= upto <= names.len(),
    ensures
        match best_index(names, upto) {
            Some((best, at)) => {
                &&& 0 <= at < upto
                &&& index_number(names[at]) == Some(best)
                &&& forall|i: int|
                    0 <= i < upto ==> (#[trigger] index_number(names[i]) matches Some(n) ==> n
                        <= best && (i < at ==> n < best))
            },
            None => forall|i: int| 0 <= i < upto ==> (#[trigger] index_number(names[i])) is None,
        },
    decreases upto,
{
    if upto > 0 {
        lemma_best_index(names, upto - 1);
    }
}

/// Reads the number that the name of a repository index file carries.
pub fn parse_index_number(name: &str) -> (r: Option<u64>)
    ensures
        match index_number(name@) {
            Some(n) => r == Some(n as u64),
            None => r is None,
        },
{
    proof {
        reveal_strlit("index-");
    }
    if !starts_with(name, "index-") {
        return None;
    }
    let n = name.unicode_len();
    parse_u64(name.substring_char(6, n))
}

/// Picks the repository index file among the names of a directory: the
/// one with the greatest number, and of several with that number the first.
/// Returns its position among the names.
pub fn find_index_file(names: &Vec<String>) -> (r: Result<usize, SnapshotError>)
    ensures
        match best_index(texts(names@), names@.len() as int) {
            Some((_, at)) => r is Ok && r->Ok_0 == at,
            None => r is Err && r->Err_0 == SnapshotError::NotFound,
        },
{
    let mut best: Option<(u64, usize)> = None;
    let mut i: usize = 0;
    while i < names.len()
        invariant
            i <= names@.len(),
            match best_index(texts(names@), i as int) {
                Some((n, at)) => best == Some((n as u64, at as usize)) && n <= u64::MAX && 0 <= at
                    < i,
                None => best is None,
            },
        decreases names@.len() - i,
    {
        assert(texts(names@)[i as int] == names@[i as int]@);
        match parse_index_number(names[i].as_str()) {
            Some(n) => {
                match best {
                    Some((best_n, _)) => {
                        if n > best_n {
                            best = Some((n, i));
                        }
                    },
                    None => {
                        best = Some((n, i));
                    },
                }
            },
            None => {},
        }
        i += 1;
    }
    match best {
        Some((_, at)) => Ok(at),
        None => Err(SnapshotError::NotFound),
    }
}

/// Whether a name is that of a shard directory: an unsigned number of at
/// most 32 bits.
pub open spec fn is_shard_name(name: Seq<char>) -> bool {
    spec_parse_unsigned(name, u32::MAX as nat) is Some
}

/// The number of shard directories among names.
pub open spec fn shard_name_count(names: Seq<Seq<char>>) -> nat
    decreases names.len(),
{
    if names.len() == 0 {
        0
    } else {
        shard_name_count(names.drop_last()) + if is_shard_name(names.last()) {
            1nat
        } else {
            0nat
        }
    }
}

/// Counts the shard directories among the names of the sub-directories of
/// an index directory.
pub fn count_shard_dirs(names: &Vec<String>) -> (r: usize)
    ensures
        r == shard_name_count(texts(names@)),
{
    let mut count: usize = 0;
    let mut i: usize = 0;
    assert(texts(names@).subrange(0, 0) =~= Seq::<Seq<char>>::empty());
    while i < names.len()
        invariant
            i <= names@.len(),
            count <= i,
            count == shard_name_count(texts(names@).subrange(0, i as int)),
        decreases names@.len() - i,
    {
        assert(texts(names@).subrange(0, i + 1).drop_last() =~= texts(names@).subrange(
            0,
            i as int,
        ));
        assert(texts(names@).subrange(0, i + 1).last() == names@[i as int]@);
        if parse_u32(names[i].as_str()).is_some() {
            count += 1;
        }
        i += 1;
    }
    assert(texts(names@).subrange(0, i as int) =~= texts(names@));
    count
}

/// The names of the sub-directories of the directory of one index.
#[derive(Debug)]
pub struct DirListing {
    pub index_id: String,
    pub names: Vec<String>,
}

/// A directory listing as plain values.
pub struct ListingModel {
    pub index_id: Seq<char>,
    pub names: Seq<Seq<char>>,
}

impl View for DirListing {
    type V = ListingModel;

    open spec fn view(&self) -> ListingModel {
        ListingModel { index_id: self.index_id@, names: texts(self.names@) }
    }
}

/// The models of a sequence of listings, in order.
pub open spec fn listing_models(v: Seq<DirListing>) -> Seq<ListingModel> {
    Seq::new(v.len(), |i: int| v[i]@)
}

/// The position of the first snapshot named `name` at or after `from`, or
/// the number of snapshots where there is none.
pub open spec fn snapshot_position(snapshots: Seq<SnapshotModel>, name: Seq<char>, from: int) -> int
    decreases snapshots.len() - from,
{
    if from < 0 || from >= snapshots.len() {
        snapshots.len() as int
    } else if snapshots[from].name == name {
        from
    } else {
        snapshot_position(snapshots, name, from + 1)
    }
}

/// Whether an index belongs to a snapshot. Where the snapshot has a lookup,
/// the identifier of the index is among the identifiers of the lookup;
/// else the identifier of the snapshot is among the snapshots of the index.
pub open spec fn participates(snapshot: SnapshotModel, entry: IndexEntryModel) -> bool {
    match snapshot.lookup {
        Some(ids) => ids.contains(entry.id),
        None => entry.snapshots.contains(snapshot.uuid),
    }
}

/// The number of shard directories in the first listing for `id` at or
/// after `from`, or zero where there is no listing for it.
pub open spec fn listed_shards(listings: Seq<ListingModel>, id: Seq<char>, from: int) -> nat
    decreases listings.len() - from,
{
    if from < 0 || from >= listings.len() {
        0
    } else if listings[from].index_id == id {
        shard_name_count(listings[from].names)
    } else {
        listed_shards(listings, id, from + 1)
    }
}

/// Whether the shards of an index are counted from a directory listing:
/// the repository records no shard generations for it.
pub open spec fn needs_listing(entry: IndexEntryModel) -> bool {
    entry.shard_generations == 0
}

/// The number of shards of an index: the number of its shard generations,
/// or where it has none the number of shard directories that are listed.
pub open spec fn shard_count(entry: IndexEntryModel, listings: Seq<ListingModel>) -> nat {
    if needs_listing(entry) {
        listed_shards(listings, entry.id, 0)
    } else {
        entry.shard_generations
    }
}

/// The indices of a snapshot among the first `upto` indices of the
/// repository, in their order.
pub open spec fn resolved_indices(
    meta: MetadataModel,
    snapshot: SnapshotModel,
    listings: Seq<ListingModel>,
    upto: int,
) -> Seq<IndexModel>
    decreases upto,
{
    if upto <= 0 || upto > meta.indices.len() {
        Seq::empty()
    } else {
        let (name, entry) = meta.indices[upto - 1];
        let before = resolved_indices(meta, snapshot, listings, upto - 1);
        if participates(snapshot, entry) {
            before.push(
                IndexModel { name, id: entry.id, num_shards: shard_count(entry, listings) },
            )
        } else {
            before
        }
    }
}

/// The identifiers of the indices of a snapshot, among the first `upto`
/// indices of the repository, whose shards are counted from a listing.
pub open spec fn listing_requests_upto(meta: MetadataModel, snapshot: SnapshotModel, upto: int)
    -> Seq<Seq<char>>
    decreases upto,
{
    if upto <= 0 || upto > meta.indices.len() {
        Seq::empty()
    } else {
        let (_, entry) = meta.indices[upto - 1];
        let before = listing_requests_upto(meta, snapshot, upto - 1);
        if participates(snapshot, entry) && needs_listing(entry) {
            before.push(entry.id)
        } else {
            before
        }
    }
}

/// The snapshot named `name` with its indices: the first snapshot of that
/// name counts, and there is none where no snapshot has the name.
pub open spec fn spec_resolve(meta: MetadataModel, name: Seq<char>, listings: Seq<ListingModel>)
    -> Result<RepoModel, SnapshotError> {
    let at = snapshot_position(meta.snapshots, name, 0);
    if at < meta.snapshots.len() {
        Ok(
            RepoModel {
                snapshot_id: meta.snapshots[at].uuid,
                snapshot_name: name,
                indices: resolved_indices(
                    meta,
                    meta.snapshots[at],
                    listings,
                    meta.indices.len() as int,
                ),
            },
        )
    } else {
        Err(SnapshotError::NotFound)
    }
}

/// The index directories that have to be listed before the snapshot named
/// `name` can be resolved.
pub open spec fn spec_listing_requests(meta: MetadataModel, name: Seq<char>) -> Result<
    Seq<Seq<char>>,
    SnapshotError,
> {
    let at = snapshot_position(meta.snapshots, name, 0);
    if at < meta.snapshots.len() {
        Ok(listing_requests_upto(meta, meta.snapshots[at], meta.indices.len() as int))
    } else {
        Err(SnapshotError::NotFound)
    }
}

/// Whether `wanted` is among `items`.
fn contains_text(items: &Vec<String>, wanted: &str) -> (r: bool)
    ensures
        r == texts(items@).contains(wanted@),
{
    let mut i: usize = 0;
    while i < items.len()
        invariant
            i <= items@.len(),
            forall|j: int| 0 <= j < i ==> texts(items@)[j] != wanted@,
        decreases items@.len() - i,
    {
        if str_eq(items[i].as_str(), wanted) {
            assert(texts(items@)[i as int] == wanted@);
            return true;
        }
        i += 1;
    }
    false
}

/// Whether `wanted` is among the first components of `pairs`.
fn contains_first(pairs: &Vec<(String, String)>, wanted: &str) -> (r: bool)
    ensures
        r == first_texts(pairs@).contains(wanted@),
{
    let mut i: usize = 0;
    while i < pairs.len()
        invariant
            i <= pairs@.len(),
            forall|j: int| 0 <= j < i ==> first_texts(pairs@)[j] != wanted@,
        decreases pairs@.len() - i,
    {
        if str_eq(pairs[i].0.as_str(), wanted) {
            assert(first_texts(pairs@)[i as int] == wanted@);
            return true;
        }
        i += 1;
    }
    false
}

impl SnapshotEntry {
    /// Whether the index `entry` belongs to this snapshot.
    pub fn holds(&self, entry: &IndexEntry) -> (r: bool)
        ensures
            r == participates(self@, entry@),
    {
        match &self.index_metadata_lookup {
            Some(pairs) => contains_first(pairs, entry.id.as_str()),
            None => contains_text(&entry.snapshots, self.uuid.as_str()),
        }
    }
}

impl RepoMetadata {
    /// Finds the first snapshot named `name`.
    pub fn find_snapshot(&self, name: &str) -> (r: Option<&SnapshotEntry>)
        ensures
            ({
                let at = snapshot_position(self@.snapshots, name@, 0);
                if at < self@.snapshots.len() {
                    r is Some && r->0@ == self@.snapshots[at]
                } else {
                    r is None
                }
            }),
    {
        let mut i: usize = 0;
        while i < self.snapshots.len()
            invariant
                i <= self.snapshots@.len(),
                snapshot_position(self@.snapshots, name@, 0) == snapshot_position(
                    self@.snapshots,
                    name@,
                    i as int,
                ),
            decreases self.snapshots@.len() - i,
        {
            if str_eq(self.snapshots[i].name.as_str(), name) {
                return Some(&self.snapshots[i]);
            }
            i += 1;
        }
        None
    }
}

/// Counts the shard directories in the listing for the index `id`.
fn count_listed_shards(listings: &Vec<DirListing>, id: &str) -> (r: usize)
    ensures
        r == listed_shards(listing_models(listings@), id@, 0),
{
    let mut i: usize = 0;
    while i < listings.len()
        invariant
            i <= listings@.len(),
            listed_shards(listing_models(listings@), id@, 0) == listed_shards(
                listing_models(listings@),
                id@,
                i as int,
            ),
        decreases listings@.len() - i,
    {
        if str_eq(listings[i].index_id.as_str(), id) {
            return count_shard_dirs(&listings[i].names);
        }
        i += 1;
    }
    0
}

/// Names the index directories that have to be listed before the snapshot
/// named `snapshot_name` can be resolved: those of its indices for which
/// the repository records no shard generations.
pub fn listing_requests(meta: &RepoMetadata, snapshot_name: &str) -> (r: Result<
    Vec<String>,
    SnapshotError,
>)
    ensures
        match spec_listing_requests(meta@, snapshot_name@) {
            Ok(ids) => r is Ok && texts(r->Ok_0@) == ids,
            Err(e) => r is Err && r->Err_0 == e,
        },
{
    let snapshot = match meta.find_snapshot(snapshot_name) {
        Some(s) => s,
        None => { return Err(SnapshotError::NotFound); },
    };
    let mut ids: Vec<String> = Vec::new();
    let mut i: usize = 0;
    assert(texts(ids@) =~= Seq::<Seq<char>>::empty());
    while i < meta.indices.len()
        invariant
            i <= meta.indices@.len(),
            texts(ids@) == listing_requests_upto(meta@, snapshot@, i as int),
        decreases meta.indices@.len() - i,
    {
        let entry = &meta.indices[i].1;
        assert(meta@.indices[i as int].1 == entry@);
        if snapshot.holds(entry) && entry.shard_generations.len() == 0 {
            let ghost before = texts(ids@);
            ids.push(entry.id.clone());
            assert(texts(ids@) =~= before.push(entry@.id));
        }
        i += 1;
    }
    Ok(ids)
}

/// Resolves the snapshot named `snapshot_name`: finds it in the repository
/// index and collects its indices with their shard counts. `listings`
/// holds the directory listings that `listing_requests` asked for; an index
/// whose listing is missing has no shards.
pub fn resolve_snapshot(meta: &RepoMetadata, snapshot_name: &str, listings: &Vec<DirListing>) -> (r:
    Result<ResolvedRepo, SnapshotError>)
    ensures
        match spec_resolve(meta@, snapshot_name@, listing_models(listings@)) {
            Ok(repo) => r is Ok && r->Ok_0@ == repo,
            Err(e) => r is Err && r->Err_0 == e,
        },
{
    let snapshot = match meta.find_snapshot(snapshot_name) {
        Some(s) => s,
        None => { return Err(SnapshotError::NotFound); },
    };
    let ghost lists = listing_models(listings@);
    let mut indices: Vec<ResolvedIndex> = Vec::new();
    let mut i: usize = 0;
    assert(index_models(indices@) =~= Seq::<IndexModel>::empty());
    while i < meta.indices.len()
        invariant
            i <= meta.indices@.len(),
            lists == listing_models(listings@),
            index_models(indices@) == resolved_indices(meta@, snapshot@, lists, i as int),
        decreases meta.indices@.len() - i,
    {
        let name = &meta.indices[i].0;
        let entry = &meta.indices[i].1;
        assert(meta@.indices[i as int] == (name@, entry@));
        if snapshot.holds(entry) {
            let num_shards = if entry.shard_generations.len() == 0 {
                count_listed_shards(listings, entry.id.as_str())
            } else {
                entry.shard_generations.len()
            };
            let ghost before = index_models(indices@);
            let resolved = ResolvedIndex { name: name.clone(), id: entry.id.clone(), num_shards };
            let ghost model = resolved@;
            indices.push(resolved);
            assert(index_models(indices@) =~= before.push(model));
        }
        i += 1;
    }
    Ok(
        ResolvedRepo {
            snapshot_id: snapshot.uuid.clone(),
            snapshot_name: String::from_str(snapshot_name),
            indices,
        },
    )
}

} // verus!
