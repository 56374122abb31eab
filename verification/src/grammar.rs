//! The binary JSON dialect, stated as functions from bytes to trees.
//!
//! A payload is a four-byte header followed by one value. Decoding is a
//! single pass from left to right: short keys and short string values are
//! appended to two tables as they are read, and later tokens may refer to
//! them by position.

use vstd::prelude::*;
use vstd::utf8::*;
use crate::smile::{FloatBits, Tree};

verus! {

/// The features that the header of a payload switches on.
#[derive(Debug, Clone, Copy, PartialEq, Eq, Structural)]
pub struct Flags {
    /// Short keys are remembered and may be referred to.
    pub shared_keys: bool,
    /// Short string values are remembered and may be referred to.
    pub shared_values: bool,
    /// Binary literals are written verbatim rather than seven bits to a byte.
    pub raw_binary: bool,
}

/// Where a decoder stands: the next byte to read and the two tables.
pub struct Cursor {
    pub pos: int,
    pub keys: Seq<Seq<char>>,
    pub values: Seq<Seq<char>>,
}

impl Cursor {
    /// The same tables at another position.
    pub open spec fn at(self, pos: int) -> Cursor {
        Cursor { pos, keys: self.keys, values: self.values }
    }
}

/// The longest string that is remembered in a table, in bytes.
pub const MAX_SHARED_LEN: usize = 64;

/// The flags of a payload, where it starts with the three marker bytes and a
/// flag byte.
pub open spec fn spec_header(data: Seq<u8>) -> Option<Flags> {
    if data.len() >= 4 && data[0] == 0x3A && data[1] == 0x29 && data[2] == 0x0A {
        Some(
            Flags {
                shared_keys: data[3] & 0x01 != 0,
                shared_values: data[3] & 0x02 != 0,
                raw_binary: data[3] & 0x04 != 0,
            },
        )
    } else {
        None
    }
}

/// Zigzag decoding: even numbers are the non-negative integers, odd numbers
/// the negative ones.
pub open spec fn zigzag(n: u64) -> int {
    if n % 2 == 0 {
        (n / 2) as int
    } else {
        -((n / 2) as int) - 1
    }
}

/// The number that the bytes from `pos` on add to `acc`, and the position
/// after it. A byte below `0x80` carries seven bits and is followed by more;
/// a byte from `0x80` on carries six bits and ends the number.
pub open spec fn vint_from(data: Seq<u8>, pos: int, acc: nat) -> Option<(nat, int)>
    decreases data.len() - pos,
{
    if pos < 0 || pos >= data.len() {
        None
    } else if data[pos] < 0x80 {
        vint_from(data, pos + 1, acc * 128 + data[pos] as nat)
    } else {
        Some((acc * 64 + (data[pos] % 64) as nat, pos + 1))
    }
}

/// The unsigned variable-length integer at `pos` and the position after it.
/// There is none where the bytes end before the number does or where the
/// number does not fit in 64 bits.
pub open spec fn spec_vint(data: Seq<u8>, pos: int) -> Option<(u64, int)> {
    match vint_from(data, pos, 0) {
        Some((v, next)) => if v <= u64::MAX {
            Some((v as u64, next))
        } else {
            None
        },
        None => None,
    }
}

/// The `n` bytes at `pos`, where the data holds that many.
pub open spec fn spec_take(data: Seq<u8>, pos: int, n: int) -> Option<Seq<u8>> {
    if 0 <= pos && 0 <= n && pos + n <= data.len() {
        Some(data.subrange(pos, pos + n))
    } else {
        None
    }
}

/// The text that the bytes encode in UTF-8, where they encode one.
pub open spec fn spec_text(bytes: Seq<u8>) -> Option<Seq<char>> {
    if valid_utf8(bytes) {
        Some(decode_utf8(bytes))
    } else {
        None
    }
}

/// The position of the first byte `0xFC` at or after `from`, or the length
/// of the data where there is none.
pub open spec fn sentinel_position(data: Seq<u8>, from: int) -> int
    decreases data.len() - from,
{
    if from < 0 || from >= data.len() {
        data.len() as int
    } else if data[from] == 0xFC {
        from
    } else {
        sentinel_position(data, from + 1)
    }
}

/// A long string at `pos`: the text up to the next byte `0xFC`, and the
/// position after that byte. There is none where no `0xFC` follows or the
/// bytes before it are not UTF-8.
pub open spec fn spec_long_text(data: Seq<u8>, pos: int) -> Option<(Seq<char>, int)> {
    let end = sentinel_position(data, pos);
    if 0 <= pos && end < data.len() {
        match spec_text(data.subrange(pos, end)) {
            Some(s) => Some((s, end + 1)),
            None => None,
        }
    } else {
        None
    }
}

/// A short string of `n` bytes at `pos`, and the position after it.
pub open spec fn spec_short_text(data: Seq<u8>, pos: int, n: int) -> Option<(Seq<char>, int)> {
    match spec_take(data, pos, n) {
        Some(bytes) => match spec_text(bytes) {
            Some(s) => Some((s, pos + n)),
            None => None,
        },
        None => None,
    }
}

/// The table after a string of `n` bytes was read: the string is appended
/// where sharing is on and the string is short enough.
pub open spec fn remember(table: Seq<Seq<char>>, on: bool, s: Seq<char>, n: int) -> Seq<
    Seq<char>,
> {
    if on && n <= MAX_SHARED_LEN {
        table.push(s)
    } else {
        table
    }
}

/// What stands at a key position: the end of the object (`None`) or a key,
/// together with the cursor after it.
pub open spec fn spec_key(data: Seq<u8>, c: Cursor, f: Flags) -> Option<
    (Option<Seq<char>>, Cursor),
> {
    if c.pos < 0 || c.pos >= data.len() {
        None
    } else {
        let b = data[c.pos];
        let p = c.pos + 1;
        if b == 0xFB {
            Some((None, c.at(p)))
        } else if 0x40 <= b <= 0x7F {
            if f.shared_keys && b - 0x40 < c.keys.len() {
                Some((Some(c.keys[b - 0x40]), c.at(p)))
            } else {
                None
            }
        } else if 0x30 <= b <= 0x33 {
            if f.shared_keys && p < data.len() && (b - 0x30) * 256 + data[p] < c.keys.len() {
                Some((Some(c.keys[(b - 0x30) * 256 + data[p]]), c.at(p + 1)))
            } else {
                None
            }
        } else if b == 0x20 {
            Some((Some(Seq::empty()), c.at(p)))
        } else if 0x80 <= b <= 0xBF {
            spec_short_key(data, c, f, b - 0x7F)
        } else if 0xC0 <= b <= 0xF7 {
            spec_short_key(data, c, f, b - 0xBE)
        } else if b == 0x34 || b == 0x35 {
            match spec_long_text(data, p) {
                Some((s, next)) => Some((Some(s), c.at(next))),
                None => None,
            }
        } else {
            None
        }
    }
}

/// A short key of `n` bytes after the token at the cursor.
pub open spec fn spec_short_key(data: Seq<u8>, c: Cursor, f: Flags, n: int) -> Option<
    (Option<Seq<char>>, Cursor),
> {
    match spec_short_text(data, c.pos + 1, n) {
        Some((s, next)) => Some(
            (
                Some(s),
                Cursor { pos: next, keys: remember(c.keys, f.shared_keys, s, n), values: c.values },
            ),
        ),
        None => None,
    }
}

/// A short string value of `n` bytes after the token at the cursor.
pub open spec fn spec_short_value(data: Seq<u8>, c: Cursor, f: Flags, n: int) -> Option<
    (Tree, Cursor),
> {
    match spec_short_text(data, c.pos + 1, n) {
        Some((s, next)) => Some(
            (
                Tree::String(s),
                Cursor {
                    pos: next,
                    keys: c.keys,
                    values: remember(c.values, f.shared_values, s, n),
                },
            ),
        ),
        None => None,
    }
}

/// The bit pattern of a single-precision number written as five bytes: each
/// byte is shifted seven bits further left than the one after it, and the
/// shifted bytes are or-ed together in 32 bits.
pub open spec fn single_bits(raw: Seq<u8>) -> u32 {
    ((raw[0] as u32) << 28) | ((raw[1] as u32) << 21) | ((raw[2] as u32) << 14) | ((raw[3] as u32)
        << 7) | (raw[4] as u32)
}

/// The bit pattern of a double-precision number written as ten bytes: each
/// byte is shifted seven bits further left than the one after it, and the
/// shifted bytes are or-ed together in 64 bits.
pub open spec fn double_bits(raw: Seq<u8>) -> u64 {
    ((raw[0] as u64) << 63) | ((raw[1] as u64) << 56) | ((raw[2] as u64) << 49) | ((raw[3] as u64)
        << 42) | ((raw[4] as u64) << 35) | ((raw[5] as u64) << 28) | ((raw[6] as u64) << 21) | ((
    raw[7] as u64) << 14) | ((raw[8] as u64) << 7) | (raw[9] as u64)
}

/// One unpacked byte: the low seven bits come from `low`, the top bit is bit
/// `j` of the group's first byte.
pub open spec fn unpacked_byte(header: u8, low: u8, j: int) -> u8 {
    low | (((header >> (j as u8)) & 1) << 7)
}

/// Binary data unpacked from groups of up to eight bytes. The first byte of
/// a group supplies the top bits of the bytes that follow it; a last group
/// of a single byte holds nothing.
pub open spec fn unpack_7bit(encoded: Seq<u8>) -> Seq<u8>
    decreases encoded.len(),
{
    if encoded.len() < 2 {
        Seq::empty()
    } else {
        let group = if encoded.len() < 8 {
            encoded.len() as int
        } else {
            8
        };
        Seq::new((group - 1) as nat, |j: int| unpacked_byte(encoded[0], encoded[1 + j], j))
            + unpack_7bit(encoded.subrange(group, encoded.len() as int))
    }
}

/// A length-prefixed block of bytes at `pos`, and the position after it.
pub open spec fn spec_block(data: Seq<u8>, pos: int) -> Option<(Seq<u8>, int)> {
    match spec_vint(data, pos) {
        Some((n, start)) => match spec_take(data, start, n as int) {
            Some(bytes) => Some((bytes, start + n)),
            None => None,
        },
        None => None,
    }
}

/// Whether `after` lies further on in the data than `before`.
pub open spec fn moved(data: Seq<u8>, before: Cursor, after: Cursor) -> bool {
    before.pos < after.pos <= data.len()
}

/// The value whose token stands at the cursor, and the cursor after it.
///
/// A key and a value each take at least one byte of the data, so the tests
/// with `moved` in `spec_items` and `spec_pairs` never fail (see
/// `lemma_key_moves` and `lemma_value_moves`); they are what makes the
/// definition well-founded.
pub open spec fn spec_value(data: Seq<u8>, c: Cursor, f: Flags) -> Option<(Tree, Cursor)>
    decreases data.len() - c.pos, 0nat,
{
    if c.pos < 0 || c.pos >= data.len() {
        None
    } else {
        let b = data[c.pos];
        let p = c.pos + 1;
        if b == 0x20 {
            Some((Tree::String(Seq::empty()), c.at(p)))
        } else if b == 0x21 {
            Some((Tree::Null, c.at(p)))
        } else if b == 0x22 {
            Some((Tree::Bool(false), c.at(p)))
        } else if b == 0x23 {
            Some((Tree::Bool(true), c.at(p)))
        } else if b == 0x24 || b == 0x25 {
            match spec_vint(data, p) {
                Some((n, next)) => Some((Tree::Int(zigzag(n) as i64), c.at(next))),
                None => None,
            }
        } else if b == 0x26 {
            match spec_block(data, p) {
                Some((_, next)) => Some((Tree::Int(0), c.at(next))),
                None => None,
            }
        } else if b == 0x28 {
            match spec_take(data, p, 5) {
                Some(raw) => Some((Tree::Float(FloatBits::Single(single_bits(raw))), c.at(p + 5))),
                None => None,
            }
        } else if b == 0x29 {
            match spec_take(data, p, 10) {
                Some(raw) => Some(
                    (Tree::Float(FloatBits::Double(double_bits(raw))), c.at(p + 10)),
                ),
                None => None,
            }
        } else if 0xC0 <= b <= 0xDF {
            Some((Tree::Int(zigzag((b - 0xC0) as u64) as i64), c.at(p)))
        } else if 0x40 <= b <= 0x7F {
            spec_short_value(data, c, f, b - 0x3F)
        } else if 0x80 <= b <= 0xBF {
            spec_short_value(data, c, f, b - 0x7E)
        } else if 0x01 <= b <= 0x1F {
            if f.shared_values && b - 1 < c.values.len() {
                Some((Tree::String(c.values[b - 1]), c.at(p)))
            } else {
                None
            }
        } else if 0xEC <= b <= 0xEF {
            if f.shared_values && p < data.len() && (b - 0xEC) * 256 + data[p] < c.values.len() {
                Some((Tree::String(c.values[(b - 0xEC) * 256 + data[p]]), c.at(p + 1)))
            } else {
                None
            }
        } else if b == 0xE0 || b == 0xE4 {
            match spec_long_text(data, p) {
                Some((s, next)) => Some((Tree::String(s), c.at(next))),
                None => None,
            }
        } else if b == 0xE8 {
            match spec_block(data, p) {
                Some((bytes, next)) => Some((Tree::Binary(unpack_7bit(bytes)), c.at(next))),
                None => None,
            }
        } else if b == 0xFD {
            match spec_block(data, p) {
                Some((bytes, next)) => Some((Tree::Binary(bytes), c.at(next))),
                None => None,
            }
        } else if b == 0xF8 {
            match spec_items(data, c.at(p), f) {
                Some((items, next)) => Some((Tree::Array(items), next)),
                None => None,
            }
        } else if b == 0xFA {
            match spec_pairs(data, c.at(p), f) {
                Some((pairs, next)) => Some((Tree::Object(pairs), next)),
                None => None,
            }
        } else {
            None
        }
    }
}

/// The items of an array from the cursor up to the closing byte `0xF9`, and
/// the cursor after that byte.
pub open spec fn spec_items(data: Seq<u8>, c: Cursor, f: Flags) -> Option<(Seq<Tree>, Cursor)>
    decreases data.len() - c.pos, 1nat,
{
    if c.pos < 0 || c.pos >= data.len() {
        None
    } else if data[c.pos] == 0xF9 {
        Some((Seq::empty(), c.at(c.pos + 1)))
    } else {
        match spec_value(data, c, f) {
            Some((item, c2)) => if !moved(data, c, c2) {
                None
            } else {
                match spec_items(data, c2, f) {
                    Some((rest, c3)) => Some((seq![item] + rest, c3)),
                    None => None,
                }
            },
            None => None,
        }
    }
}

/// The pairs of an object from the cursor up to the closing byte `0xFB`,
/// and the cursor after that byte.
pub open spec fn spec_pairs(data: Seq<u8>, c: Cursor, f: Flags) -> Option<
    (Seq<(Seq<char>, Tree)>, Cursor),
>
    decreases data.len() - c.pos, 1nat,
{
    match spec_key(data, c, f) {
        Some((None, c2)) => Some((Seq::empty(), c2)),
        Some((Some(key), c2)) => if !moved(data, c, c2) {
            None
        } else {
            match spec_value(data, c2, f) {
                Some((value, c3)) => if !moved(data, c2, c3) {
                    None
                } else {
                    match spec_pairs(data, c3, f) {
                        Some((rest, c4)) => Some((seq![(key, value)] + rest, c4)),
                        None => None,
                    }
                },
                None => None,
            }
        },
        None => None,
    }
}

/// The tree that a payload encodes: the header, then one value read with
/// empty tables. Bytes after that value are not looked at.
pub open spec fn spec_parse(data: Seq<u8>) -> Option<Tree> {
    match spec_header(data) {
        Some(f) => match spec_value(
            data,
            Cursor { pos: 4, keys: Seq::empty(), values: Seq::empty() },
            f,
        ) {
            Some((t, _)) => Some(t),
            None => None,
        },
        None => None,
    }
}

/// A variable-length integer ends after its start, within the data, and is
/// at least what was accumulated before it.
pub proof fn lemma_vint_from(data: Seq<u8>, pos: int, acc: nat)
    requires
        0 <= pos,
    ensures
        vint_from(data, pos, acc) matches Some((v, next)) ==> pos < next <= data.len() && v >= acc,
    decreases data.len() - pos,
{
    if pos < data.len() && data[pos] < 0x80 {
        lemma_vint_from(data, pos + 1, acc * 128 + data[pos] as nat);
    }
}

/// `sentinel_position` is the least position from `from` on that holds
/// `0xFC`, or the length of the data.
pub proof fn lemma_sentinel_position(data: Seq<u8>, from: int)
    requires
        0 <= from <= data.len(),
    ensures
        from <= sentinel_position(data, from) <= data.len(),
        forall|j: int| from <= j < sentinel_position(data, from) ==> data[j] != 0xFC,
        sentinel_position(data, from) < data.len() ==> data[sentinel_position(data, from)] == 0xFC,
    decreases data.len() - from,
{
    if from < data.len() && data[from] != 0xFC {
        lemma_sentinel_position(data, from + 1);
    }
}

/// Reading a key, or the end of an object, takes at least one byte.
pub proof fn lemma_key_moves(data: Seq<u8>, c: Cursor, f: Flags)
    ensures
        spec_key(data, c, f) matches Some((_, c2)) ==> moved(data, c, c2),
{
    if 0 <= c.pos < data.len() {
        lemma_sentinel_position(data, c.pos + 1);
    }
}

/// Reading a value takes at least one byte.
pub proof fn lemma_value_moves(data: Seq<u8>, c: Cursor, f: Flags)
    ensures
        spec_value(data, c, f) matches Some((_, c2)) ==> moved(data, c, c2),
    decreases data.len() - c.pos, 0nat,
{
    if 0 <= c.pos < data.len() {
        let p = c.pos + 1;
        lemma_vint_from(data, p, 0);
        lemma_sentinel_position(data, p);
        let b = data[c.pos];
        if b == 0xF8 {
            lemma_items_move(data, c.at(p), f);
        } else if b == 0xFA {
            lemma_pairs_move(data, c.at(p), f);
        }
    }
}

/// Reading the rest of an array takes at least its closing byte.
pub proof fn lemma_items_move(data: Seq<u8>, c: Cursor, f: Flags)
    ensures
        spec_items(data, c, f) matches Some((_, c2)) ==> moved(data, c, c2),
    decreases data.len() - c.pos, 1nat,
{
    if 0 <= c.pos < data.len() && data[c.pos] != 0xF9 {
        match spec_value(data, c, f) {
            Some((_, c2)) => {
                if moved(data, c, c2) {
                    lemma_items_move(data, c2, f);
                }
            },
            None => {},
        }
    }
}

/// Reading the rest of an object takes at least its closing byte.
pub proof fn lemma_pairs_move(data: Seq<u8>, c: Cursor, f: Flags)
    ensures
        spec_pairs(data, c, f) matches Some((_, c2)) ==> moved(data, c, c2),
    decreases data.len() - c.pos, 1nat,
{
    lemma_key_moves(data, c, f);
    match spec_key(data, c, f) {
        Some((Some(_), c2)) => {
            if moved(data, c, c2) {
                match spec_value(data, c2, f) {
                    Some((_, c3)) => {
                        if moved(data, c2, c3) {
                            lemma_pairs_move(data, c3, f);
                        }
                    },
                    None => {},
                }
            }
        },
        _ => {},
    }
}

/// A reference to a remembered key resolves only where sharing of keys is
/// on, and then to a key that is in the table when the reference is read.
pub proof fn lemma_shared_key_in_table(data: Seq<u8>, c: Cursor, f: Flags)
    requires
        0 <= c.pos < data.len(),
        0x40 <= data[c.pos] <= 0x7F || 0x30 <= data[c.pos] <= 0x33,
    ensures
        spec_key(data, c, f) matches Some((key, after)) ==> f.shared_keys && key is Some
            && c.keys.contains(key->0) && after.keys == c.keys,
{
    let b = data[c.pos];
    if spec_key(data, c, f) is Some {
        if 0x40 <= b <= 0x7F {
            assert(c.keys[b - 0x40] == spec_key(data, c, f).unwrap().0->0);
        } else {
            let idx = (b - 0x30) * 256 + data[c.pos + 1];
            assert(c.keys[idx] == spec_key(data, c, f).unwrap().0->0);
        }
    }
}

/// A reference to a remembered string value resolves only where sharing of
/// values is on, and then to a string that is in the table when the
/// reference is read.
pub proof fn lemma_shared_value_in_table(data: Seq<u8>, c: Cursor, f: Flags)
    requires
        0 <= c.pos < data.len(),
        0x01 <= data[c.pos] <= 0x1F || 0xEC <= data[c.pos] <= 0xEF,
    ensures
        spec_value(data, c, f) matches Some((value, after)) ==> f.shared_values && value is String
            && c.values.contains(value->String_0) && after.values == c.values,
{
    let b = data[c.pos];
    if spec_value(data, c, f) is Some {
        if 0x01 <= b <= 0x1F {
            assert(c.values[b - 1] == spec_value(data, c, f).unwrap().0->String_0);
        } else {
            let idx = (b - 0xEC) * 256 + data[c.pos + 1];
            assert(c.values[idx] == spec_value(data, c, f).unwrap().0->String_0);
        }
    }
}

} // verus!
