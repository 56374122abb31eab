//! Decoder for the binary JSON dialect in which shard metadata is written.

use vstd::prelude::*;
use vstd::slice::{slice_subrange, slice_to_vec};
use vstd::string::*;
use crate::error::SnapshotError;
use crate::grammar::{
    lemma_key_moves, lemma_value_moves, lemma_vint_from, sentinel_position, spec_block,
    spec_header, spec_items, spec_key, spec_long_text, spec_pairs, spec_parse, spec_short_key,
    spec_short_text, spec_short_value, spec_take, spec_value, spec_vint, unpack_7bit,
    unpacked_byte, vint_from, zigzag, Cursor, Flags, MAX_SHARED_LEN,
};
use crate::text::{str_eq, texts};

verus! {

/// The bit pattern of an IEEE-754 number, kept as an integer.
#[derive(Debug, Clone, Copy, PartialEq, Eq, Structural)]
pub enum FloatBits {
    /// A single-precision number.
    Single(u32),
    /// A double-precision number.
    Double(u64),
}

/// A decoded value as a mathematical tree. Objects keep their pairs in the
/// order in which they were written.
pub enum Tree {
    Null,
    Bool(bool),
    Int(i64),
    Float(FloatBits),
    String(Seq<char>),
    Binary(Seq<u8>),
    Array(Seq<Tree>),
    Object(Seq<(Seq<char>, Tree)>),
}

/// A decoded value.
#[derive(Debug)]
pub enum SmileValue {
    Null,
    Bool(bool),
    Int(i64),
    Float(FloatBits),
    String(String),
    Binary(Vec<u8>),
    Array(Vec<SmileValue>),
    Object(Vec<(String, SmileValue)>),
}

/// The tree that a value stands for.
pub open spec fn tree_of(v: SmileValue) -> Tree
    decreases v,
{
    match v {
        SmileValue::Null => Tree::Null,
        SmileValue::Bool(b) => Tree::Bool(b),
        SmileValue::Int(n) => Tree::Int(n),
        SmileValue::Float(f) => Tree::Float(f),
        SmileValue::String(s) => Tree::String(s@),
        SmileValue::Binary(b) => Tree::Binary(b@),
        SmileValue::Array(a) => Tree::Array(
            Seq::new(
                a@.len(),
                |i: int|
                    if 0 <= i < a@.len() {
                        tree_of(a@[i])
                    } else {
                        Tree::Null
                    },
            ),
        ),
        SmileValue::Object(p) => Tree::Object(
            Seq::new(
                p@.len(),
                |i: int|
                    if 0 <= i < p@.len() {
                        (p@[i].0@, tree_of(p@[i].1))
                    } else {
                        (Seq::empty(), Tree::Null)
                    },
            ),
        ),
    }
}

/// The trees of a sequence of values, in order.
pub open spec fn trees_of(items: Seq<SmileValue>) -> Seq<Tree> {
    Seq::new(items.len(), |i: int| tree_of(items[i]))
}

/// The keys and trees of a sequence of pairs, in order.
pub open spec fn pairs_of(pairs: Seq<(String, SmileValue)>) -> Seq<(Seq<char>, Tree)> {
    Seq::new(pairs.len(), |i: int| (pairs[i].0@, tree_of(pairs[i].1)))
}

/// An array value stands for the array of its items' trees.
pub proof fn lemma_tree_of_array(a: Vec<SmileValue>)
    ensures
        tree_of(SmileValue::Array(a)) == Tree::Array(trees_of(a@)),
{
    assert(tree_of(SmileValue::Array(a))->Array_0 =~= trees_of(a@));
}

/// An object value stands for the object of its pairs' keys and trees.
pub proof fn lemma_tree_of_object(p: Vec<(String, SmileValue)>)
    ensures
        tree_of(SmileValue::Object(p)) == Tree::Object(pairs_of(p@)),
{
    assert(tree_of(SmileValue::Object(p))->Object_0 =~= pairs_of(p@));
}

impl View for SmileValue {
    type V = Tree;

    open spec fn view(&self) -> Tree {
        tree_of(*self)
    }
}

/// The position of the first pair at or after `from` whose key is `key`, or
/// the number of pairs where there is none.
pub open spec fn key_position(pairs: Seq<(Seq<char>, Tree)>, key: Seq<char>, from: int) -> int
    decreases pairs.len() - from,
{
    if from < 0 || from >= pairs.len() {
        pairs.len() as int
    } else if pairs[from].0 == key {
        from
    } else {
        key_position(pairs, key, from + 1)
    }
}

/// What a lookup by key finds in a tree: the value of the first pair with
/// that key, where the tree is an object that has one.
pub open spec fn tree_get(t: Tree, key: Seq<char>) -> Option<Tree> {
    match t {
        Tree::Object(pairs) => {
            let i = key_position(pairs, key, 0);
            if i < pairs.len() {
                Some(pairs[i].1)
            } else {
                None
            }
        },
        _ => None,
    }
}

/// `key_position` is the least position with the key: it lies in range, no
/// pair before it (from `from` on) has the key, and the pair at it has.
pub proof fn lemma_key_position(pairs: Seq<(Seq<char>, Tree)>, key: Seq<char>, from: int)
    requires
        0 <= from <= pairs.len(),
    ensures
        from <= key_position(pairs, key, from) <= pairs.len(),
        forall|j: int| from <= j < key_position(pairs, key, from) ==> pairs[j].0 != key,
        key_position(pairs, key, from) < pairs.len() ==> pairs[key_position(pairs, key, from)].0
            == key,
    decreases pairs.len() - from,
{
    if from < pairs.len() && pairs[from].0 != key {
        lemma_key_position(pairs, key, from + 1);
    }
}

impl SmileValue {
    /// The text of a string value.
    pub fn as_str(&self) -> (r: Option<&str>)
        ensures
            match self@ {
                Tree::String(s) => r is Some && r->0@ == s,
                _ => r is None,
            },
    {
        match self {
            SmileValue::String(s) => Some(s.as_str()),
            _ => None,
        }
    }

    /// The number of an integer value.
    pub fn as_i64(&self) -> (r: Option<i64>)
        ensures
            match self@ {
                Tree::Int(n) => r == Some(n),
                _ => r is None,
            },
    {
        match self {
            SmileValue::Int(n) => Some(*n),
            _ => None,
        }
    }

    /// The items of an array value.
    pub fn as_array(&self) -> (r: Option<&[SmileValue]>)
        ensures
            match self@ {
                Tree::Array(a) => r is Some && trees_of(r->0@) == a,
                _ => r is None,
            },
    {
        match self {
            SmileValue::Array(a) => {
                proof {
                    lemma_tree_of_array(*a);
                }
                Some(a.as_slice())
            },
            _ => None,
        }
    }

    /// The value of the first pair of an object whose key is `key`.
    pub fn get(&self, key: &str) -> (r: Option<&SmileValue>)
        ensures
            match tree_get(self@, key@) {
                Some(t) => r is Some && r->0@ == t,
                None => r is None,
            },
    {
        match self {
            SmileValue::Object(pairs) => {
                proof {
                    lemma_tree_of_object(*pairs);
                }
                let ghost model = pairs_of(pairs@);
                let mut i: usize = 0;
                while i < pairs.len()
                    invariant
                        i <= pairs@.len(),
                        model == pairs_of(pairs@),
                        self@ == Tree::Object(model),
                        key_position(model, key@, 0) == key_position(model, key@, i as int),
                    decreases pairs@.len() - i,
                {
                    if str_eq(pairs[i].0.as_str(), key) {
                        return Some(&pairs[i].1);
                    }
                    i += 1;
                }
                None
            },
            _ => None,
        }
    }

    /// The bytes of a binary value.
    pub fn as_bytes(&self) -> (r: Option<&[u8]>)
        ensures
            match self@ {
                Tree::Binary(b) => r is Some && r->0@ == b,
                _ => r is None,
            },
    {
        match self {
            SmileValue::Binary(b) => Some(b.as_slice()),
            _ => None,
        }
    }
}

/// Copies a value with everything below it.
fn copy_value(v: &SmileValue) -> (r: SmileValue)
    ensures
        r@ == v@,
    decreases v,
{
    match v {
        SmileValue::Null => SmileValue::Null,
        SmileValue::Bool(b) => SmileValue::Bool(*b),
        SmileValue::Int(n) => SmileValue::Int(*n),
        SmileValue::Float(f) => SmileValue::Float(*f),
        SmileValue::String(s) => SmileValue::String(s.clone()),
        SmileValue::Binary(b) => SmileValue::Binary(slice_to_vec(b.as_slice())),
        SmileValue::Array(a) => {
            let mut items: Vec<SmileValue> = Vec::new();
            let mut i: usize = 0;
            while i < a.len()
                invariant
                    i <= a@.len(),
                    items@.len() == i,
                    *v == SmileValue::Array(*a),
                    forall|j: int| 0 <= j < i ==> (#[trigger] items@[j])@ == a@[j]@,
                decreases a@.len() - i,
            {
                assert(decreases_to!(*v => v->Array_0) && decreases_to!(*a => a[i as int]));
                items.push(copy_value(&a[i]));
                i += 1;
            }
            proof {
                lemma_tree_of_array(*a);
                lemma_tree_of_array(items);
                assert(trees_of(items@) =~= trees_of(a@));
            }
            SmileValue::Array(items)
        },
        SmileValue::Object(p) => {
            let mut pairs: Vec<(String, SmileValue)> = Vec::new();
            let mut i: usize = 0;
            while i < p.len()
                invariant
                    i <= p@.len(),
                    pairs@.len() == i,
                    *v == SmileValue::Object(*p),
                    forall|j: int|
                        0 <= j < i ==> (#[trigger] pairs@[j]).0@ == p@[j].0@ && pairs@[j].1@
                            == p@[j].1@,
                decreases p@.len() - i,
            {
                assert(decreases_to!(*v => v->Object_0) && decreases_to!(*p => p[i as int]));
                pairs.push((p[i].0.clone(), copy_value(&p[i].1)));
                i += 1;
            }
            proof {
                lemma_tree_of_object(*p);
                lemma_tree_of_object(pairs);
                assert(pairs_of(pairs@) =~= pairs_of(p@));
            }
            SmileValue::Object(pairs)
        },
    }
}

impl Clone for SmileValue {
    fn clone(&self) -> (r: Self)
        ensures
            r@ == self@,
    {
        copy_value(self)
    }
}

/// Zigzag decoding of an unsigned number: `(n >> 1) ^ -(n & 1)`.
pub fn zigzag_decode(n: u64) -> (r: i64)
    ensures
        r == zigzag(n),
{
    let half: u64 = n >> 1;
    let low: u64 = n & 1;
    assert(half == n / 2 && low == n % 2 && half <= 0x7FFF_FFFF_FFFF_FFFF) by (bit_vector)
        requires
            half == n >> 1,
            low == n & 1,
    ;
    let h: i64 = half as i64;
    let mask: i64 = -(low as i64);
    let r: i64 = h ^ mask;
    assert(mask == 0 ==> r == h) by (bit_vector)
        requires
            r == h ^ mask,
    ;
    assert(mask == -1 ==> r + h == -1) by (bit_vector)
        requires
            r == h ^ mask,
    ;
    r
}

/// A decoder over one payload. It reads from left to right and owns the two
/// tables of remembered strings.
pub struct SmileParser<'a> {
    data: &'a [u8],
    pos: usize,
    shared_keys: Vec<String>,
    shared_values: Vec<String>,
    shared_keys_enabled: bool,
    shared_values_enabled: bool,
    raw_binary: bool,
}

impl<'a> SmileParser<'a> {
    /// The bytes that the decoder reads.
    pub closed spec fn input(&self) -> Seq<u8> {
        self.data@
    }

    /// The position of the next byte and the two tables.
    pub closed spec fn cursor(&self) -> Cursor {
        Cursor {
            pos: self.pos as int,
            keys: texts(self.shared_keys@),
            values: texts(self.shared_values@),
        }
    }

    /// The features that are switched on.
    pub closed spec fn flags(&self) -> Flags {
        Flags {
            shared_keys: self.shared_keys_enabled,
            shared_values: self.shared_values_enabled,
            raw_binary: self.raw_binary,
        }
    }

    /// The position lies within the input.
    pub closed spec fn wf(&self) -> bool {
        self.pos <= self.data@.len()
    }

    /// The decoder reads the same input with the same features as `other`.
    pub open spec fn continues(&self, other: &Self) -> bool {
        &&& self.wf()
        &&& self.input() == other.input()
        &&& self.flags() == other.flags()
    }

    /// A decoder at the start of `data`, with empty tables and no feature on.
    pub fn new(data: &'a [u8]) -> (p: Self)
        ensures
            p.wf(),
            p.input() == data@,
            p.cursor() == (Cursor { pos: 0, keys: Seq::empty(), values: Seq::empty() }),
            p.flags() == (Flags { shared_keys: false, shared_values: false, raw_binary: false }),
    {
        let p = SmileParser {
            data,
            pos: 0,
            shared_keys: Vec::new(),
            shared_values: Vec::new(),
            shared_keys_enabled: false,
            shared_values_enabled: false,
            raw_binary: false,
        };
        assert(texts(p.shared_keys@) =~= Seq::empty());
        assert(texts(p.shared_values@) =~= Seq::empty());
        p
    }

    /// Reads one byte.
    pub fn read_byte(&mut self) -> (r: Result<u8, SnapshotError>)
        requires
            old(self).wf(),
        ensures
            final(self).continues(old(self)),
            ({
                let c = old(self).cursor();
                let data = old(self).input();
                if c.pos < data.len() {
                    r == Ok::<u8, SnapshotError>(data[c.pos]) && final(self).cursor() == c.at(
                        c.pos + 1,
                    )
                } else {
                    r == Err::<u8, SnapshotError>(SnapshotError::InvalidFormat)
                        && final(self).cursor() == c
                }
            }),
    {
        if self.pos >= self.data.len() {
            return Err(SnapshotError::InvalidFormat);
        }
        let b = self.data[self.pos];
        self.pos += 1;
        Ok(b)
    }

    /// Looks at the next byte without taking it.
    pub fn peek_byte(&self) -> (r: Result<u8, SnapshotError>)
        requires
            self.wf(),
        ensures
            self.cursor().pos < self.input().len() ==> r == Ok::<u8, SnapshotError>(
                self.input()[self.cursor().pos],
            ),
            self.cursor().pos >= self.input().len() ==> r == Err::<u8, SnapshotError>(
                SnapshotError::InvalidFormat,
            ),
    {
        if self.pos >= self.data.len() {
            return Err(SnapshotError::InvalidFormat);
        }
        Ok(self.data[self.pos])
    }

    /// Reads `n` bytes.
    pub fn read_bytes(&mut self, n: usize) -> (r: Result<&'a [u8], SnapshotError>)
        requires
            old(self).wf(),
        ensures
            final(self).continues(old(self)),
            ({
                let c = old(self).cursor();
                match spec_take(old(self).input(), c.pos, n as int) {
                    Some(bytes) => r is Ok && r->Ok_0@ == bytes && final(self).cursor() == c.at(
                        c.pos + n,
                    ),
                    None => r is Err && r->Err_0 == SnapshotError::InvalidFormat
                        && final(self).cursor() == c,
                }
            }),
    {
        if n > self.data.len() - self.pos {
            return Err(SnapshotError::InvalidFormat);
        }
        let slice = slice_subrange(self.data, self.pos, self.pos + n);
        self.pos += n;
        Ok(slice)
    }

    /// Reads the header and switches on the features that it names.
    pub fn read_header(&mut self) -> (r: Result<(), SnapshotError>)
        requires
            old(self).wf(),
        ensures
            final(self).wf(),
            final(self).input() == old(self).input(),
            ({
                let c = old(self).cursor();
                let data = old(self).input();
                match spec_header(data.subrange(c.pos, data.len() as int)) {
                    Some(f) => r is Ok && final(self).flags() == f && final(self).cursor() == c.at(
                        c.pos + 4,
                    ),
                    None => r == Err::<(), SnapshotError>(SnapshotError::InvalidFormat),
                }
            }),
    {
        let h = self.read_bytes(3)?;
        if h[0] != 0x3A || h[1] != 0x29 || h[2] != 0x0A {
            return Err(SnapshotError::InvalidFormat);
        }
        let version = self.read_byte()?;
        self.shared_keys_enabled = version & 0x01 != 0;
        self.shared_values_enabled = version & 0x02 != 0;
        self.raw_binary = version & 0x04 != 0;
        Ok(())
    }

    /// Reads an unsigned variable-length integer.
    pub fn read_unsigned_vint(&mut self) -> (r: Result<u64, SnapshotError>)
        requires
            old(self).wf(),
        ensures
            final(self).continues(old(self)),
            ({
                let c = old(self).cursor();
                match spec_vint(old(self).input(), c.pos) {
                    Some((v, next)) => r == Ok::<u64, SnapshotError>(v) && final(self).cursor()
                        == c.at(next),
                    None => r == Err::<u64, SnapshotError>(SnapshotError::InvalidFormat),
                }
            }),
    {
        let ghost start = self.pos as int;
        let ghost data = self.data@;
        let mut value: u64 = 0;
        loop
            invariant
                self.continues(old(self)),
                data == self.data@,
                self.cursor() == old(self).cursor().at(self.pos as int),
                start == old(self).cursor().pos,
                start <= self.pos,
                vint_from(data, start, 0) == vint_from(data, self.pos as int, value as nat),
            decreases data.len() - self.pos,
        {
            if self.pos >= self.data.len() {
                return Err(SnapshotError::InvalidFormat);
            }
            let b = self.data[self.pos];
            self.pos += 1;
            proof {
                lemma_vint_from(data, self.pos as int, value as nat * 128 + b as nat);
            }
            if b < 0x80 {
                if value > 0x01FF_FFFF_FFFF_FFFF {
                    return Err(SnapshotError::InvalidFormat);
                }
                value = value * 128 + b as u64;
            } else {
                if value > 0x03FF_FFFF_FFFF_FFFF {
                    return Err(SnapshotError::InvalidFormat);
                }
                value = value * 64 + (b % 64) as u64;
                return Ok(value);
            }
        }
    }

    /// Reads a signed variable-length integer.
    pub fn read_signed_vint(&mut self) -> (r: Result<i64, SnapshotError>)
        requires
            old(self).wf(),
        ensures
            final(self).continues(old(self)),
            ({
                let c = old(self).cursor();
                match spec_vint(old(self).input(), c.pos) {
                    Some((v, next)) => r == Ok::<i64, SnapshotError>(zigzag(v) as i64)
                        && final(self).cursor() == c.at(next),
                    None => r == Err::<i64, SnapshotError>(SnapshotError::InvalidFormat),
                }
            }),
    {
        let raw = self.read_unsigned_vint()?;
        Ok(zigzag_decode(raw))
    }

    /// Reads a length-prefixed block of bytes.
    pub fn read_block(&mut self) -> (r: Result<&'a [u8], SnapshotError>)
        requires
            old(self).wf(),
        ensures
            final(self).continues(old(self)),
            ({
                let c = old(self).cursor();
                match spec_block(old(self).input(), c.pos) {
                    Some((bytes, next)) => r is Ok && r->Ok_0@ == bytes && final(self).cursor()
                        == c.at(next),
                    None => r is Err && r->Err_0 == SnapshotError::InvalidFormat,
                }
            }),
    {
        let len = self.read_unsigned_vint()?;
        if len > (self.data.len() - self.pos) as u64 {
            return Err(SnapshotError::InvalidFormat);
        }
        self.read_bytes(len as usize)
    }

    /// Reads `len` bytes as UTF-8 text.
    pub fn read_safe_utf8(&mut self, len: usize) -> (r: Result<String, SnapshotError>)
        requires
            old(self).wf(),
        ensures
            final(self).continues(old(self)),
            ({
                let c = old(self).cursor();
                match spec_short_text(old(self).input(), c.pos, len as int) {
                    Some((s, next)) => r is Ok && r->Ok_0@ == s && final(self).cursor() == c.at(
                        next,
                    ),
                    None => r is Err && r->Err_0 == SnapshotError::InvalidFormat,
                }
            }),
    {
        let bytes = self.read_bytes(len)?;
        match String::from_utf8(slice_to_vec(bytes)) {
            Ok(s) => Ok(s),
            Err(_) => Err(SnapshotError::InvalidFormat),
        }
    }

    /// Reads text up to the next byte `0xFC` and takes that byte too.
    pub fn read_long_string(&mut self) -> (r: Result<String, SnapshotError>)
        requires
            old(self).wf(),
        ensures
            final(self).continues(old(self)),
            ({
                let c = old(self).cursor();
                match spec_long_text(old(self).input(), c.pos) {
                    Some((s, next)) => r is Ok && r->Ok_0@ == s && final(self).cursor() == c.at(
                        next,
                    ),
                    None => r is Err && r->Err_0 == SnapshotError::InvalidFormat,
                }
            }),
    {
        let start = self.pos;
        let ghost data = self.data@;
        while self.pos < self.data.len() && self.data[self.pos] != 0xFC
            invariant
                self.continues(old(self)),
                data == self.data@,
                self.cursor() == old(self).cursor().at(self.pos as int),
                start == old(self).cursor().pos,
                start <= self.pos <= data.len(),
                sentinel_position(data, start as int) == sentinel_position(data, self.pos as int),
            decreases data.len() - self.pos,
        {
            self.pos += 1;
        }
        if self.pos >= self.data.len() {
            return Err(SnapshotError::InvalidFormat);
        }
        let bytes = slice_subrange(self.data, start, self.pos);
        self.pos += 1;
        match String::from_utf8(slice_to_vec(bytes)) {
            Ok(s) => Ok(s),
            Err(_) => Err(SnapshotError::InvalidFormat),
        }
    }

    /// Reads a short key of `len` bytes and remembers it where sharing is on.
    fn read_short_key(&mut self, len: usize) -> (r: Result<Option<String>, SnapshotError>)
        requires
            old(self).wf(),
            old(self).cursor().pos >= 1,
        ensures
            final(self).continues(old(self)),
            ({
                let c = old(self).cursor();
                key_result(
                    r,
                    spec_short_key(
                        old(self).input(),
                        c.at(c.pos - 1),
                        old(self).flags(),
                        len as int,
                    ),
                    final(self).cursor(),
                )
            }),
    {
        let s = self.read_safe_utf8(len)?;
        if self.shared_keys_enabled && len <= MAX_SHARED_LEN {
            let ghost before = self.shared_keys@;
            self.shared_keys.push(s.clone());
            assert(texts(self.shared_keys@) =~= texts(before).push(s@));
        }
        Ok(Some(s))
    }

    /// Reads what stands at a key position: a key, or `None` at the end of
    /// the object.
    pub fn read_key(&mut self) -> (r: Result<Option<String>, SnapshotError>)
        requires
            old(self).wf(),
        ensures
            final(self).continues(old(self)),
            key_result(
                r,
                spec_key(old(self).input(), old(self).cursor(), old(self).flags()),
                final(self).cursor(),
            ),
    {
        let b = self.read_byte()?;
        if b == 0xFB {
            Ok(None)
        } else if 0x40 <= b && b <= 0x7F {
            let idx = (b - 0x40) as usize;
            if self.shared_keys_enabled && idx < self.shared_keys.len() {
                Ok(Some(self.shared_keys[idx].clone()))
            } else {
                Err(SnapshotError::InvalidFormat)
            }
        } else if 0x30 <= b && b <= 0x33 {
            if !self.shared_keys_enabled {
                return Err(SnapshotError::InvalidFormat);
            }
            let b2 = self.read_byte()? as usize;
            let idx = ((b - 0x30) as usize) * 256 + b2;
            if idx < self.shared_keys.len() {
                Ok(Some(self.shared_keys[idx].clone()))
            } else {
                Err(SnapshotError::InvalidFormat)
            }
        } else if b == 0x20 {
            Ok(Some(String::new()))
        } else if 0x80 <= b && b <= 0xBF {
            self.read_short_key((b - 0x7F) as usize)
        } else if 0xC0 <= b && b <= 0xF7 {
            self.read_short_key((b - 0xBE) as usize)
        } else if b == 0x34 || b == 0x35 {
            let s = self.read_long_string()?;
            Ok(Some(s))
        } else {
            Err(SnapshotError::InvalidFormat)
        }
    }
}

/// Whether the outcome of reading a value is the one that the grammar gives.
pub open spec fn value_result(
    r: Result<SmileValue, SnapshotError>,
    expected: Option<(Tree, Cursor)>,
    after: Cursor,
) -> bool {
    match expected {
        Some((t, c)) => r is Ok && r->Ok_0@ == t && after == c,
        None => r is Err && r->Err_0 == SnapshotError::InvalidFormat,
    }
}

/// The items of an array are those read so far followed by those from `c` on.
pub open spec fn items_continue(
    whole: Option<(Seq<Tree>, Cursor)>,
    done: Seq<Tree>,
    rest: Option<(Seq<Tree>, Cursor)>,
) -> bool {
    match rest {
        Some((items, c)) => whole == Some((done + items, c)),
        None => whole is None,
    }
}

/// The pairs of an object are those read so far followed by those from `c` on.
pub open spec fn pairs_continue(
    whole: Option<(Seq<(Seq<char>, Tree)>, Cursor)>,
    done: Seq<(Seq<char>, Tree)>,
    rest: Option<(Seq<(Seq<char>, Tree)>, Cursor)>,
) -> bool {
    match rest {
        Some((pairs, c)) => whole == Some((done + pairs, c)),
        None => whole is None,
    }
}

impl<'a> SmileParser<'a> {
    /// Reads a short string value of `len` bytes and remembers it where
    /// sharing is on.
    fn read_short_value(&mut self, len: usize) -> (r: Result<SmileValue, SnapshotError>)
        requires
            old(self).wf(),
            old(self).cursor().pos >= 1,
        ensures
            final(self).continues(old(self)),
            ({
                let c = old(self).cursor();
                value_result(
                    r,
                    spec_short_value(
                        old(self).input(),
                        c.at(c.pos - 1),
                        old(self).flags(),
                        len as int,
                    ),
                    final(self).cursor(),
                )
            }),
    {
        let s = self.read_safe_utf8(len)?;
        if self.shared_values_enabled && len <= MAX_SHARED_LEN {
            let ghost before = self.shared_values@;
            self.shared_values.push(s.clone());
            assert(texts(self.shared_values@) =~= texts(before).push(s@));
        }
        Ok(SmileValue::String(s))
    }

    /// Reads the items of an array up to its closing byte.
    fn read_items(&mut self) -> (r: Result<SmileValue, SnapshotError>)
        requires
            old(self).wf(),
        ensures
            final(self).continues(old(self)),
            match spec_items(old(self).input(), old(self).cursor(), old(self).flags()) {
                Some((items, c)) => r is Ok && r->Ok_0@ == Tree::Array(items)
                    && final(self).cursor() == c,
                None => r is Err && r->Err_0 == SnapshotError::InvalidFormat,
            },
        decreases old(self).input().len() - old(self).cursor().pos, 1nat,
    {
        let ghost data = self.data@;
        let ghost f = self.flags();
        let ghost whole = spec_items(data, self.cursor(), f);
        let mut arr: Vec<SmileValue> = Vec::new();
        proof {
            if whole is Some {
                assert(trees_of(arr@) + whole.unwrap().0 =~= whole.unwrap().0);
            }
        }
        loop
            invariant
                self.continues(old(self)),
                data == self.input(),
                f == self.flags(),
                old(self).cursor().pos <= self.cursor().pos,
                items_continue(whole, trees_of(arr@), spec_items(data, self.cursor(), f)),
                whole == spec_items(old(self).input(), old(self).cursor(), old(self).flags()),
            decreases data.len() - self.cursor().pos,
        {
            let next = self.peek_byte()?;
            let ghost here = self.cursor();
            if next == 0xF9 {
                assert(self.pos < self.data.len());
                self.pos += 1;
                proof {
                    lemma_tree_of_array(arr);
                    assert(trees_of(arr@) + Seq::<Tree>::empty() =~= trees_of(arr@));
                }
                return Ok(SmileValue::Array(arr));
            }
            let ghost done = trees_of(arr@);
            let v = self.read_value()?;
            proof {
                lemma_value_moves(data, here, f);
            }
            arr.push(v);
            proof {
                let rest = spec_items(data, self.cursor(), f);
                assert(trees_of(arr@) =~= done + seq![v@]);
                if rest is Some {
                    let tail = rest.unwrap().0;
                    assert(trees_of(arr@) + tail =~= done + (seq![v@] + tail));
                }
            }
        }
    }

    /// Reads the pairs of an object up to its closing byte.
    fn read_pairs(&mut self) -> (r: Result<SmileValue, SnapshotError>)
        requires
            old(self).wf(),
        ensures
            final(self).continues(old(self)),
            match spec_pairs(old(self).input(), old(self).cursor(), old(self).flags()) {
                Some((pairs, c)) => r is Ok && r->Ok_0@ == Tree::Object(pairs)
                    && final(self).cursor() == c,
                None => r is Err && r->Err_0 == SnapshotError::InvalidFormat,
            },
        decreases old(self).input().len() - old(self).cursor().pos, 1nat,
    {
        let ghost data = self.data@;
        let ghost f = self.flags();
        let ghost whole = spec_pairs(data, self.cursor(), f);
        let mut pairs: Vec<(String, SmileValue)> = Vec::new();
        proof {
            if whole is Some {
                assert(pairs_of(pairs@) + whole.unwrap().0 =~= whole.unwrap().0);
            }
        }
        loop
            invariant
                self.continues(old(self)),
                data == self.input(),
                f == self.flags(),
                old(self).cursor().pos <= self.cursor().pos,
                pairs_continue(whole, pairs_of(pairs@), spec_pairs(data, self.cursor(), f)),
                whole == spec_pairs(old(self).input(), old(self).cursor(), old(self).flags()),
            decreases data.len() - self.cursor().pos,
        {
            let ghost here = self.cursor();
            proof {
                lemma_key_moves(data, here, f);
            }
            match self.read_key()? {
                None => {
                    proof {
                        lemma_tree_of_object(pairs);
                        let none = Seq::<(Seq<char>, Tree)>::empty();
                        assert(pairs_of(pairs@) + none =~= pairs_of(pairs@));
                    }
                    return Ok(SmileValue::Object(pairs));
                },
                Some(key) => {
                    let ghost done = pairs_of(pairs@);
                    let ghost mid = self.cursor();
                    let value = self.read_value()?;
                    proof {
                        lemma_value_moves(data, mid, f);
                    }
                    let ghost pair = (key@, value@);
                    pairs.push((key, value));
                    proof {
                        let rest = spec_pairs(data, self.cursor(), f);
                        assert(pairs_of(pairs@) =~= done + seq![pair]);
                        if rest is Some {
                            let tail = rest.unwrap().0;
                            assert(pairs_of(pairs@) + tail =~= done + (seq![pair] + tail));
                        }
                    }
                },
            }
        }
    }

    /// Reads one value.
    pub fn read_value(&mut self) -> (r: Result<SmileValue, SnapshotError>)
        requires
            old(self).wf(),
        ensures
            final(self).continues(old(self)),
            value_result(
                r,
                spec_value(old(self).input(), old(self).cursor(), old(self).flags()),
                final(self).cursor(),
            ),
        decreases old(self).input().len() - old(self).cursor().pos, 0nat,
    {
        let b = self.read_byte()?;
        self.decode_value_token(b)
    }

    /// Reads the rest of a value whose token `b` was taken already.
    fn decode_value_token(&mut self, b: u8) -> (r: Result<SmileValue, SnapshotError>)
        requires
            old(self).wf(),
            old(self).cursor().pos >= 1,
            old(self).input()[old(self).cursor().pos - 1] == b,
        ensures
            final(self).continues(old(self)),
            ({
                let c = old(self).cursor();
                value_result(
                    r,
                    spec_value(old(self).input(), c.at(c.pos - 1), old(self).flags()),
                    final(self).cursor(),
                )
            }),
        decreases old(self).input().len() - old(self).cursor().pos, 2nat,
    {
        if b == 0x20 {
            Ok(SmileValue::String(String::new()))
        } else if b == 0x21 {
            Ok(SmileValue::Null)
        } else if b == 0x22 {
            Ok(SmileValue::Bool(false))
        } else if b == 0x23 {
            Ok(SmileValue::Bool(true))
        } else if b == 0x24 || b == 0x25 {
            let v = self.read_signed_vint()?;
            Ok(SmileValue::Int(v))
        } else if b == 0x26 {
            let _bytes = self.read_block()?;
            Ok(SmileValue::Int(0))
        } else if b == 0x28 {
            let raw = self.read_bytes(5)?;
            let bits: u32 = ((raw[0] as u32) << 28) | ((raw[1] as u32) << 21) | ((raw[2] as u32)
                << 14) | ((raw[3] as u32) << 7) | (raw[4] as u32);
            Ok(SmileValue::Float(FloatBits::Single(bits)))
        } else if b == 0x29 {
            let raw = self.read_bytes(10)?;
            let bits: u64 = ((raw[0] as u64) << 63) | ((raw[1] as u64) << 56) | ((raw[2] as u64)
                << 49) | ((raw[3] as u64) << 42) | ((raw[4] as u64) << 35) | ((raw[5] as u64)
                << 28) | ((raw[6] as u64) << 21) | ((raw[7] as u64) << 14) | ((raw[8] as u64)
                << 7) | (raw[9] as u64);
            Ok(SmileValue::Float(FloatBits::Double(bits)))
        } else if 0xC0 <= b && b <= 0xDF {
            Ok(SmileValue::Int(zigzag_decode((b - 0xC0) as u64)))
        } else if 0x40 <= b && b <= 0x7F {
            self.read_short_value((b - 0x3F) as usize)
        } else if 0x80 <= b && b <= 0xBF {
            self.read_short_value((b - 0x7E) as usize)
        } else if 0x01 <= b && b <= 0x1F {
            let idx = (b - 1) as usize;
            if self.shared_values_enabled && idx < self.shared_values.len() {
                Ok(SmileValue::String(self.shared_values[idx].clone()))
            } else {
                Err(SnapshotError::InvalidFormat)
            }
        } else if 0xEC <= b && b <= 0xEF {
            let b2 = self.read_byte()? as usize;
            let idx = ((b - 0xEC) as usize) * 256 + b2;
            if self.shared_values_enabled && idx < self.shared_values.len() {
                Ok(SmileValue::String(self.shared_values[idx].clone()))
            } else {
                Err(SnapshotError::InvalidFormat)
            }
        } else if b == 0xE0 || b == 0xE4 {
            let s = self.read_long_string()?;
            Ok(SmileValue::String(s))
        } else if b == 0xE8 {
            let encoded = self.read_block()?;
            Ok(SmileValue::Binary(decode_7bit_binary(encoded)))
        } else if b == 0xFD {
            let bytes = self.read_block()?;
            Ok(SmileValue::Binary(slice_to_vec(bytes)))
        } else if b == 0xF8 {
            self.read_items()
        } else if b == 0xFA {
            self.read_pairs()
        } else {
            Err(SnapshotError::InvalidFormat)
        }
    }

    /// Decodes a payload: the header, then one value.
    pub fn parse(data: &'a [u8]) -> (r: Result<SmileValue, SnapshotError>)
        ensures
            match spec_parse(data@) {
                Some(t) => r is Ok && r->Ok_0@ == t,
                None => r is Err && r->Err_0 == SnapshotError::InvalidFormat,
            },
    {
        let mut parser = SmileParser::new(data);
        assert(data@.subrange(0, data@.len() as int) =~= data@);
        parser.read_header()?;
        parser.read_value()
    }
}

/// Whether the outcome of reading a key is the one that the grammar gives.
pub open spec fn key_result(
    r: Result<Option<String>, SnapshotError>,
    expected: Option<(Option<Seq<char>>, Cursor)>,
    after: Cursor,
) -> bool {
    match expected {
        Some((Some(key), c)) => r is Ok && r->Ok_0 is Some && r->Ok_0->0@ == key && after == c,
        Some((None, c)) => r is Ok && r->Ok_0 is None && after == c,
        None => r is Err && r->Err_0 == SnapshotError::InvalidFormat,
    }
}

/// Unpacks binary data that was written seven bits to a byte.
pub fn decode_7bit_binary(encoded: &[u8]) -> (decoded: Vec<u8>)
    ensures
        decoded@ == unpack_7bit(encoded@),
{
    let mut decoded: Vec<u8> = Vec::new();
    let mut i: usize = 0;
    assert(encoded@.subrange(0, encoded@.len() as int) =~= encoded@);
    assert(decoded@ + unpack_7bit(encoded@) =~= unpack_7bit(encoded@));
    while i < encoded.len()
        invariant
            i <= encoded@.len(),
            unpack_7bit(encoded@) == decoded@ + unpack_7bit(
                encoded@.subrange(i as int, encoded@.len() as int),
            ),
        decreases encoded@.len() - i,
    {
        let ghost rest = encoded@.subrange(i as int, encoded@.len() as int);
        let ghost before = decoded@;
        let group_len: usize = if encoded.len() - i < 8 {
            encoded.len() - i
        } else {
            8
        };
        if group_len < 2 {
            assert(unpack_7bit(rest) =~= Seq::empty());
            assert(decoded@ + Seq::<u8>::empty() =~= decoded@);
            return decoded;
        }
        let header = encoded[i];
        i += 1;
        let mut j: u8 = 0;
        while (j as usize) < group_len - 1
            invariant
                2 <= group_len <= 8,
                j <= group_len - 1,
                1 <= i,
                i + group_len - 1 <= encoded.len(),
                rest.len() == encoded@.len() - i + 1,
                group_len <= rest.len(),
                header == rest[0],
                rest == encoded@.subrange(i - 1, encoded@.len() as int),
                decoded@ == before + Seq::new(
                    j as nat,
                    |k: int| unpacked_byte(rest[0], rest[1 + k], k),
                ),
            decreases group_len - 1 - j,
        {
            let b = encoded[i + j as usize] | (((header >> j) & 1) << 7);
            decoded.push(b);
            j += 1;
            assert(decoded@ =~= before + Seq::new(
                j as nat,
                |k: int| unpacked_byte(rest[0], rest[1 + k], k),
            ));
        }
        i += group_len - 1;
        assert(rest.subrange(group_len as int, rest.len() as int) =~= encoded@.subrange(
            i as int,
            encoded@.len() as int,
        ));
        assert(unpack_7bit(encoded@) =~= decoded@ + unpack_7bit(
            encoded@.subrange(i as int, encoded@.len() as int),
        ));
    }
    assert(unpack_7bit(encoded@.subrange(i as int, encoded@.len() as int)) =~= Seq::empty());
    assert(decoded@ + Seq::<u8>::empty() =~= decoded@);
    decoded
}

} // verus!
