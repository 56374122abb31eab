//! The read path: which ranges of which parts hold a range of a file.

use vstd::prelude::*;
use vstd::slice::{slice_subrange, slice_to_vec};
use crate::metadata::{lemma_num_parts, record_wf, FileRecord, ShardFileEntry, UNPARTITIONED};

verus! {

/// One ranged read: `len` bytes from position `offset` of part `part_index`.
#[derive(Debug, Clone, Copy, PartialEq, Eq, Structural)]
pub struct PartRead {
    pub part_index: u64,
    pub offset: u64,
    pub len: u64,
}

/// The length of every part but the last: the length of the file where it
/// is unpartitioned, else the part size.
pub open spec fn effective_part_size(rec: FileRecord) -> u64 {
    if rec.part_size == UNPARTITIONED {
        rec.length
    } else {
        rec.part_size
    }
}

/// The length of part `p`: the last part holds what the parts before it
/// leave of the file, every other part is full.
pub open spec fn part_len(rec: FileRecord, p: int) -> int {
    if p == rec.num_parts - 1 {
        rec.length - p * effective_part_size(rec)
    } else {
        effective_part_size(rec) as int
    }
}

/// The read that serves the byte at `file_offset` and as many of the
/// `remaining` bytes after it as its part holds.
pub open spec fn next_read(rec: FileRecord, file_offset: u64, remaining: u64) -> PartRead {
    let size = effective_part_size(rec);
    let part = file_offset / size;
    let offset = file_offset % size;
    let available = part_len(rec, part as int) - offset;
    PartRead {
        part_index: part,
        offset,
        len: if remaining <= available {
            remaining
        } else {
            available as u64
        },
    }
}

/// A read within a file lies within one part and takes at least one byte
/// and at most what is left of the file.
pub proof fn lemma_next_read(rec: FileRecord, file_offset: u64, remaining: u64)
    requires
        record_wf(rec),
        file_offset < rec.length,
        remaining > 0,
    ensures
        effective_part_size(rec) > 0,
        ({
            let r = next_read(rec, file_offset, remaining);
            &&& r.part_index < rec.num_parts
            &&& r.part_index * effective_part_size(rec) + r.offset == file_offset
            &&& 1 <= r.len <= remaining
            &&& r.offset + r.len <= part_len(rec, r.part_index as int)
            &&& file_offset + r.len <= rec.length
            &&& r.len < remaining ==> r.offset + r.len == part_len(rec, r.part_index as int)
        }),
{
    let size = effective_part_size(rec);
    let part = file_offset / size;
    let offset = file_offset % size;
    let n = rec.num_parts;
    lemma_num_parts(rec.length, rec.part_size);
    assert(file_offset == part * size + offset && 0 <= offset < size) by (nonlinear_arith)
        requires
            size > 0,
            part == file_offset / size,
            offset == file_offset % size,
    ;
    if rec.part_size == UNPARTITIONED {
        assert(part == 0) by (nonlinear_arith)
            requires
                part == file_offset / size,
                0 <= file_offset < size,
        ;
    } else {
        // the file has n parts: (n - 1) * size < length <= n * size
        assert(part < n) by (nonlinear_arith)
            requires
                part * size + offset == file_offset,
                offset >= 0,
                file_offset < rec.length,
                rec.length <= n * size,
                size > 0,
        ;
        if part < n - 1 {
            assert((part + 1) * size <= (n - 1) * size) by (nonlinear_arith)
                requires
                    part + 1 <= n - 1,
                    size > 0,
            ;
            assert((part + 1) * size == part * size + size) by (nonlinear_arith);
        }
    }
}

/// The reads that serve `remaining` bytes of a file from `file_offset` on,
/// in order: each read lies within one part, and the next one starts where
/// the one before it stopped. Nothing is read past the end of the file.
pub open spec fn spec_read_plan(rec: FileRecord, file_offset: u64, remaining: u64) -> Seq<PartRead>
    decreases rec.length - file_offset,
    when record_wf(rec)
{
    if remaining == 0 || file_offset >= rec.length {
        Seq::empty()
    } else {
        let r = next_read(rec, file_offset, remaining);
        proof {
            lemma_next_read(rec, file_offset, remaining);
        }
        seq![r] + spec_read_plan(
            rec,
            (file_offset + r.len) as u64,
            (remaining - r.len) as u64,
        )
    }
}

impl ShardFileEntry {
    /// The reads that serve `size` bytes of the file from `offset` on.
    pub fn read_plan(&self, offset: u64, size: u32) -> (plan: Vec<PartRead>)
        requires
            record_wf(self@),
        ensures
            plan@ == spec_read_plan(self@, offset, size as u64),
    {
        let ghost rec = self@;
        let mut plan: Vec<PartRead> = Vec::new();
        let mut remaining: u64 = size as u64;
        let mut file_offset: u64 = offset;
        let part_size = if self.part_size == UNPARTITIONED {
            self.length
        } else {
            self.part_size
        };
        assert(plan@ + spec_read_plan(rec, file_offset, remaining) =~= spec_read_plan(
            rec,
            offset,
            size as u64,
        ));
        while remaining > 0 && file_offset < self.length
            invariant
                rec == self@,
                record_wf(rec),
                part_size == effective_part_size(rec),
                plan@ + spec_read_plan(rec, file_offset, remaining) == spec_read_plan(
                    rec,
                    offset,
                    size as u64,
                ),
            decreases self.length - file_offset,
        {
            proof {
                lemma_next_read(rec, file_offset, remaining);
            }
            let part_idx = file_offset / part_size;
            let offset_in_part = file_offset % part_size;
            let this_part_len = if part_idx == self.num_parts - 1 {
                self.length - part_idx * part_size
            } else {
                part_size
            };
            let available = this_part_len - offset_in_part;
            let to_read = if remaining <= available {
                remaining
            } else {
                available
            };
            let read = PartRead { part_index: part_idx, offset: offset_in_part, len: to_read };
            assert(read == next_read(rec, file_offset, remaining));
            let ghost before = plan@;
            let ghost rest = spec_read_plan(
                rec,
                (file_offset + to_read) as u64,
                (remaining - to_read) as u64,
            );
            plan.push(read);
            assert(plan@ + rest =~= before + (seq![read] + rest));
            file_offset += to_read;
            remaining -= to_read;
        }
        assert(plan@ + Seq::<PartRead>::empty() =~= plan@);
        plan
    }
}

/// The `size` bytes of `content` from `offset` on, or as many as there are.
pub open spec fn content_slice(content: Seq<u8>, offset: u64, size: u32) -> Seq<u8> {
    if offset >= content.len() {
        Seq::empty()
    } else if offset + size <= content.len() {
        content.subrange(offset as int, offset + size)
    } else {
        content.subrange(offset as int, content.len() as int)
    }
}

impl ShardFileEntry {
    /// Reads from a virtual file, whose contents are its meta hash.
    pub fn read_virtual(&self, offset: u64, size: u32) -> (data: Vec<u8>)
        ensures
            data@ == content_slice(self@.meta_hash, offset, size),
    {
        let len = self.meta_hash.len();
        if offset >= len as u64 {
            return Vec::new();
        }
        let start = offset as usize;
        let end = if size as u64 <= (len - start) as u64 {
            start + size as usize
        } else {
            len
        };
        slice_to_vec(slice_subrange(self.meta_hash.as_slice(), start, end))
    }
}

} // verus!
