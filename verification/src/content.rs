//! What the planned reads give back: a model of the blobs of a file, and
//! the proof that reads return the bytes of the file.

use vstd::prelude::*;
use crate::fs::{blob_reads, BlobReadModel};
use crate::metadata::{lemma_num_parts, record_wf, spec_part_name, FileRecord, UNPARTITIONED};
use crate::plan::{
    content_slice, effective_part_size, lemma_next_read, next_read, part_len, spec_read_plan,
    PartRead,
};

verus! {

/// The parts of a file joined in order.
pub open spec fn concat_parts(parts: Seq<Seq<u8>>) -> Seq<u8>
    decreases parts.len(),
{
    if parts.len() == 0 {
        Seq::empty()
    } else {
        concat_parts(parts.drop_last()) + parts.last()
    }
}

/// Whether `parts` are the blobs of the file `rec`: there is one for each
/// part, and each has the length of its part.
pub open spec fn parts_fit(rec: FileRecord, parts: Seq<Seq<u8>>) -> bool {
    &&& parts.len() == rec.num_parts
    &&& forall|p: int| 0 <= p < parts.len() ==> (#[trigger] parts[p]).len() == part_len(rec, p)
}

/// What the reads of a plan give, joined in order.
pub open spec fn served(parts: Seq<Seq<u8>>, plan: Seq<PartRead>) -> Seq<u8>
    decreases plan.len(),
{
    if plan.len() == 0 {
        Seq::empty()
    } else {
        parts[plan[0].part_index as int].subrange(
            plan[0].offset as int,
            plan[0].offset + plan[0].len,
        ) + served(parts, plan.drop_first())
    }
}

/// The contents of a file: its meta hash where it is virtual, else its
/// parts joined in order.
pub open spec fn file_content(rec: FileRecord, parts: Seq<Seq<u8>>) -> Seq<u8> {
    if rec.is_virtual {
        rec.meta_hash
    } else {
        concat_parts(parts)
    }
}

/// What a read of `size` bytes from `offset` on returns when every planned
/// read succeeds.
pub open spec fn read_response(rec: FileRecord, parts: Seq<Seq<u8>>, offset: u64, size: u32) -> Seq<
    u8,
> {
    if offset >= rec.length {
        Seq::empty()
    } else if rec.is_virtual {
        content_slice(rec.meta_hash, offset, size)
    } else {
        served(parts, spec_read_plan(rec, offset, size as u64))
    }
}

/// What reading a file from `from` on in chunks of `chunk` bytes returns,
/// joined in order.
pub open spec fn chunked_reads(rec: FileRecord, parts: Seq<Seq<u8>>, chunk: u32, from: int) -> Seq<
    u8,
>
    decreases rec.length - from,
{
    if chunk == 0 || from < 0 || from >= rec.length {
        Seq::empty()
    } else {
        read_response(rec, parts, from as u64, chunk) + chunked_reads(
            rec,
            parts,
            chunk,
            if from + chunk <= rec.length {
                from + chunk
            } else {
                rec.length as int
            },
        )
    }
}

/// Where all parts but the last have `size` bytes, the joined parts have
/// `size` bytes for each part but the last, and then those of the last.
pub proof fn lemma_concat_len(parts: Seq<Seq<u8>>, size: int)
    requires
        parts.len() >= 1,
        forall|j: int| 0 <= j < parts.len() - 1 ==> (#[trigger] parts[j]).len() == size,
    ensures
        concat_parts(parts).len() == (parts.len() - 1) * size + parts.last().len(),
    decreases parts.len(),
{
    let n = parts.len() as int;
    let init = parts.drop_last();
    assert((n - 1) * size == (n - 2) * size + size) by (nonlinear_arith);
    if n == 1 {
        assert(concat_parts(init) =~= Seq::<u8>::empty());
        assert((n - 1) * size == 0) by (nonlinear_arith)
            requires
                n == 1,
        ;
    } else {
        lemma_concat_len(init, size);
        assert(init.last() == parts[n - 2]);
        assert(parts[n - 2].len() == size);
    }
}

/// Where all parts but the last have `size` bytes, the joined parts have
/// the bytes of part `p` from position `p * size` on.
pub proof fn lemma_concat_index(parts: Seq<Seq<u8>>, size: int, p: int, k: int)
    requires
        parts.len() >= 1,
        size >= 0,
        forall|j: int| 0 <= j < parts.len() - 1 ==> (#[trigger] parts[j]).len() == size,
        0 <= p < parts.len(),
        0 <= k < parts[p].len(),
    ensures
        0 <= p * size + k < concat_parts(parts).len(),
        concat_parts(parts)[p * size + k] == parts[p][k],
    decreases parts.len(),
{
    let n = parts.len() as int;
    let init = parts.drop_last();
    lemma_concat_len(parts, size);
    assert(p * size >= 0 && p * size <= (n - 1) * size) by (nonlinear_arith)
        requires
            0 <= p <= n - 1,
            size >= 0,
    ;
    if p < n - 1 {
        assert((p + 1) * size <= (n - 1) * size) by (nonlinear_arith)
            requires
                p + 1 <= n - 1,
                size >= 0,
        ;
        assert((p + 1) * size == p * size + size) by (nonlinear_arith);
        lemma_concat_index(init, size, p, k);
        assert(init[p] == parts[p]);
    } else {
        if n >= 2 {
            lemma_concat_len(init, size);
            assert(init.last() == parts[n - 2]);
            assert((n - 1) * size == (n - 2) * size + size) by (nonlinear_arith);
        } else {
            assert(concat_parts(init) =~= Seq::<u8>::empty());
        }
    }
}

/// The blobs of a file join to as many bytes as the file has.
pub proof fn lemma_content_len(rec: FileRecord, parts: Seq<Seq<u8>>)
    requires
        record_wf(rec),
        parts_fit(rec, parts),
    ensures
        concat_parts(parts).len() == rec.length,
{
    let size = effective_part_size(rec) as int;
    let n = rec.num_parts as int;
    lemma_num_parts(rec.length, rec.part_size);
    assert forall|j: int| 0 <= j < parts.len() - 1 implies (#[trigger] parts[j]).len() == size by {
        assert(parts[j].len() == part_len(rec, j));
    }
    assert(parts.last().len() == part_len(rec, n - 1));
    lemma_concat_len(parts, size);
}

/// Byte `k` of part `p` is byte `p * size + k` of the file, where `size`
/// is the length of a full part.
pub proof fn lemma_part_bytes(rec: FileRecord, parts: Seq<Seq<u8>>, p: int, k: int)
    requires
        record_wf(rec),
        parts_fit(rec, parts),
        0 <= p < rec.num_parts,
        0 <= k < part_len(rec, p),
    ensures
        0 <= p * effective_part_size(rec) + k < rec.length,
        concat_parts(parts)[p * effective_part_size(rec) + k] == parts[p][k],
{
    let size = effective_part_size(rec) as int;
    lemma_content_len(rec, parts);
    assert forall|j: int| 0 <= j < parts.len() - 1 implies (#[trigger] parts[j]).len() == size by {
        assert(parts[j].len() == part_len(rec, j));
    }
    assert(parts[p].len() == part_len(rec, p));
    lemma_concat_index(parts, size, p, k);
}

/// The reads that are planned for a range of a file return that range: the
/// bytes of the file from `offset` up to `offset + remaining`, or up to the
/// end of the file where that comes first.
pub proof fn lemma_plan_serves_range(
    rec: FileRecord,
    parts: Seq<Seq<u8>>,
    offset: u64,
    remaining: u64,
)
    requires
        record_wf(rec),
        parts_fit(rec, parts),
        offset <= rec.length,
    ensures
        served(parts, spec_read_plan(rec, offset, remaining)) == concat_parts(parts).subrange(
            offset as int,
            if offset + remaining <= rec.length {
                offset + remaining
            } else {
                rec.length as int
            },
        ),
    decreases rec.length - offset,
{
    let whole = concat_parts(parts);
    lemma_content_len(rec, parts);
    let end = if offset + remaining <= rec.length {
        offset + remaining
    } else {
        rec.length as int
    };
    if remaining == 0 || offset >= rec.length {
        assert(whole.subrange(offset as int, end) =~= Seq::<u8>::empty());
    } else {
        let r = next_read(rec, offset, remaining);
        lemma_next_read(rec, offset, remaining);
        let next = (offset + r.len) as u64;
        let left = (remaining - r.len) as u64;
        let rest = spec_read_plan(rec, next, left);
        let plan = spec_read_plan(rec, offset, remaining);
        assert(plan == seq![r] + rest);
        assert(plan[0] == r);
        assert(plan.drop_first() =~= rest);
        lemma_plan_serves_range(rec, parts, next, left);
        let piece = parts[r.part_index as int].subrange(r.offset as int, r.offset + r.len);
        assert(parts[r.part_index as int].len() == part_len(rec, r.part_index as int));
        assert(piece =~= whole.subrange(offset as int, offset + r.len)) by {
            assert forall|k: int| 0 <= k < r.len implies piece[k] == whole[offset + k] by {
                lemma_part_bytes(rec, parts, r.part_index as int, r.offset + k);
            }
        }
        assert(whole.subrange(offset as int, offset + r.len) + whole.subrange(offset + r.len, end)
            =~= whole.subrange(offset as int, end));
    }
}

/// Whether the contents of the file `rec` are known: a virtual file has a
/// meta hash that is not longer than the file, and any other file keeps
/// its invariant and has `parts` as its blobs.
pub open spec fn backed(rec: FileRecord, parts: Seq<Seq<u8>>) -> bool {
    if rec.is_virtual {
        rec.meta_hash.len() <= rec.length
    } else {
        record_wf(rec) && parts_fit(rec, parts)
    }
}

/// A position, or the end of the contents where the position lies past it.
pub open spec fn clip(position: int, len: nat) -> int {
    if position <= len {
        position
    } else {
        len as int
    }
}

/// A read returns the contents of the file from `offset` up to `offset +
/// size`, or up to their end where that comes first.
pub proof fn lemma_read_returns_range(
    rec: FileRecord,
    parts: Seq<Seq<u8>>,
    offset: u64,
    size: u32,
)
    requires
        backed(rec, parts),
    ensures
        file_content(rec, parts).len() <= rec.length,
        !rec.is_virtual ==> file_content(rec, parts).len() == rec.length,
        read_response(rec, parts, offset, size) == file_content(rec, parts).subrange(
            clip(offset as int, file_content(rec, parts).len()),
            clip(offset + size, file_content(rec, parts).len()),
        ),
{
    let whole = file_content(rec, parts);
    let len = whole.len();
    if !rec.is_virtual {
        lemma_content_len(rec, parts);
        if offset < rec.length {
            lemma_plan_serves_range(rec, parts, offset, size as u64);
        }
    }
    if offset >= len {
        assert(whole.subrange(len as int, len as int) =~= Seq::<u8>::empty());
    }
}

/// Reading a file in chunks of any size of at least one byte, up to its
/// length, and joining what the reads return gives the contents of the
/// file from the first position on; from the start, all of them: the parts
/// joined in order, or for a virtual file the meta hash.
pub proof fn lemma_chunked_reads(rec: FileRecord, parts: Seq<Seq<u8>>, chunk: u32, from: int)
    requires
        backed(rec, parts),
        chunk >= 1,
        0 <= from <= rec.length,
    ensures
        chunked_reads(rec, parts, chunk, from) == file_content(rec, parts).subrange(
            clip(from, file_content(rec, parts).len()),
            file_content(rec, parts).len() as int,
        ),
        from == 0 ==> chunked_reads(rec, parts, chunk, from) == file_content(rec, parts),
    decreases rec.length - from,
{
    let whole = file_content(rec, parts);
    let len = whole.len();
    lemma_read_returns_range(rec, parts, from as u64, chunk);
    if from >= rec.length {
        assert(whole.subrange(len as int, len as int) =~= Seq::<u8>::empty());
    } else {
        let next = if from + chunk <= rec.length {
            from + chunk
        } else {
            rec.length as int
        };
        lemma_chunked_reads(rec, parts, chunk, next);
        let a = clip(from, len);
        let b = clip(from + chunk, len);
        assert(clip(next, len) == b);
        assert(whole.subrange(a, b) + whole.subrange(b, len as int) =~= whole.subrange(
            a,
            len as int,
        ));
    }
    if from == 0 {
        assert(whole.subrange(0, len as int) =~= whole);
    }
}

/// Reading a file of a single part from its start, for as many bytes as
/// it has, returns the whole blob.
pub proof fn lemma_single_part_read(rec: FileRecord, parts: Seq<Seq<u8>>)
    requires
        record_wf(rec),
        !rec.is_virtual,
        parts_fit(rec, parts),
        rec.num_parts == 1,
        rec.length <= u32::MAX,
    ensures
        read_response(rec, parts, 0, rec.length as u32) == parts[0],
{
    lemma_read_returns_range(rec, parts, 0, rec.length as u32);
    lemma_content_len(rec, parts);
    assert(concat_parts(parts.drop_last()) =~= Seq::<u8>::empty());
    assert(concat_parts(parts) =~= parts[0]);
    assert(parts[0].len() == part_len(rec, 0));
    assert(parts[0].subrange(0, rec.length as int) =~= parts[0]);
}

/// A read of two bytes that starts at the last byte of the first part of a
/// longer file takes one byte from the end of the first part and then one
/// from the start of the second.
pub proof fn lemma_boundary_read(rec: FileRecord)
    requires
        record_wf(rec),
        rec.part_size != UNPARTITIONED,
        rec.length > rec.part_size,
    ensures
        spec_read_plan(rec, (rec.part_size - 1) as u64, 2) == seq![
            PartRead { part_index: 0, offset: (rec.part_size - 1) as u64, len: 1 },
            PartRead { part_index: 1, offset: 0, len: 1 },
        ],
{
    let size = rec.part_size;
    let first = next_read(rec, (size - 1) as u64, 2);
    let second = next_read(rec, size, 1);
    lemma_next_read(rec, (size - 1) as u64, 2);
    lemma_next_read(rec, size, 1);
    lemma_num_parts(rec.length, rec.part_size);
    assert(first.part_index == 0 && first.offset == size - 1) by (nonlinear_arith)
        requires
            first.part_index * size + first.offset == size - 1,
            first.offset >= 0,
            first.part_index >= 0,
            size > 0,
    ;
    assert(second.part_index == 1 && second.offset == 0) by (nonlinear_arith)
        requires
            second.part_index * size + second.offset == size,
            second.offset == size % size,
            second.part_index >= 0,
            size > 0,
    ;
    assert(rec.num_parts >= 2) by (nonlinear_arith)
        requires
            rec.length <= rec.num_parts * size,
            rec.length > size,
            size > 0,
            rec.num_parts >= 1,
    ;
    assert(first.len == 1);
    assert(second.len == 1);
    let tail = spec_read_plan(rec, (size + 1) as u64, 0);
    assert(tail =~= Seq::<PartRead>::empty());
    assert(spec_read_plan(rec, size, 1) =~= seq![second] + tail);
    assert(spec_read_plan(rec, (size - 1) as u64, 2) =~= seq![first] + spec_read_plan(
        rec,
        size,
        1,
    ));
    assert(seq![first] + (seq![second] + tail) =~= seq![first, second]);
}

/// Reading a virtual file from its start, for at least as many bytes as
/// its meta hash has, returns the meta hash. This leaves out a file that
/// is said to be empty and yet has a meta hash.
pub proof fn lemma_virtual_read(rec: FileRecord, parts: Seq<Seq<u8>>, size: u32)
    requires
        rec.is_virtual,
        size >= rec.meta_hash.len(),
        rec.length > 0 || rec.meta_hash.len() == 0,
    ensures
        read_response(rec, parts, 0, size) == rec.meta_hash,
{
    assert(rec.meta_hash.subrange(0, rec.meta_hash.len() as int) =~= rec.meta_hash);
    if rec.meta_hash.len() == 0 {
        assert(rec.meta_hash =~= Seq::<u8>::empty());
    }
}

/// Whether the directory of a shard, as a map from names to contents,
/// holds the blobs of the file `rec` under the names of its parts.
pub open spec fn parts_stored(
    rec: FileRecord,
    parts: Seq<Seq<u8>>,
    store: Map<Seq<char>, Seq<u8>>,
) -> bool {
    forall|p: int|
        0 <= p < rec.num_parts ==> store.dom().contains(
            #[trigger] spec_part_name(rec, p as u64),
        ) && store[spec_part_name(rec, p as u64)] == parts[p]
}

/// What the blob reads of an answer give when they are done against the
/// directory of the shard, joined in order.
pub open spec fn fetched(store: Map<Seq<char>, Seq<u8>>, reads: Seq<BlobReadModel>) -> Seq<u8>
    decreases reads.len(),
{
    if reads.len() == 0 {
        Seq::empty()
    } else {
        store[reads[0].file_name].subrange(reads[0].offset as int, reads[0].offset + reads[0].len)
            + fetched(store, reads.drop_first())
    }
}

/// The blob reads with which a read of a file is answered fetch what the
/// planned reads of its parts give.
pub proof fn lemma_fetched_is_served(
    rec: FileRecord,
    parts: Seq<Seq<u8>>,
    store: Map<Seq<char>, Seq<u8>>,
    offset: u64,
    remaining: u64,
)
    requires
        record_wf(rec),
        parts_stored(rec, parts, store),
    ensures
        fetched(store, blob_reads(rec, spec_read_plan(rec, offset, remaining))) == served(
            parts,
            spec_read_plan(rec, offset, remaining),
        ),
    decreases rec.length - offset,
{
    let plan = spec_read_plan(rec, offset, remaining);
    if remaining == 0 || offset >= rec.length {
        assert(blob_reads(rec, plan) =~= Seq::<BlobReadModel>::empty());
    } else {
        let r = next_read(rec, offset, remaining);
        lemma_next_read(rec, offset, remaining);
        let next = (offset + r.len) as u64;
        let left = (remaining - r.len) as u64;
        let rest = spec_read_plan(rec, next, left);
        assert(plan == seq![r] + rest);
        assert(plan[0] == r);
        assert(plan.drop_first() =~= rest);
        assert(blob_reads(rec, plan).drop_first() =~= blob_reads(rec, rest));
        let first = blob_reads(rec, plan)[0];
        assert(first.file_name == spec_part_name(rec, r.part_index) && first.offset == r.offset
            && first.len == r.len);
        let p = r.part_index as int;
        assert(spec_part_name(rec, p as u64) == first.file_name);
        assert(store[first.file_name] == parts[p]);
        lemma_fetched_is_served(rec, parts, store, next, left);
    }
}

/// Doing the blob reads with which a read of a file is answered against
/// the directory of its shard gives what the read returns.
pub proof fn lemma_answer_is_response(
    rec: FileRecord,
    parts: Seq<Seq<u8>>,
    store: Map<Seq<char>, Seq<u8>>,
    offset: u64,
    size: u32,
)
    requires
        record_wf(rec),
        !rec.is_virtual,
        parts_fit(rec, parts),
        parts_stored(rec, parts, store),
        offset < rec.length,
    ensures
        fetched(store, blob_reads(rec, spec_read_plan(rec, offset, size as u64))) == read_response(
            rec,
            parts,
            offset,
            size,
        ),
{
    lemma_fetched_is_served(rec, parts, store, offset, size as u64);
}

} // verus!
