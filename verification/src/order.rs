//! The order of the indices of a snapshot: by name, without repeats.

use vstd::prelude::*;
use vstd::string::*;
use crate::repo::{
    index_models, index_position, lemma_index_position, lookup_index, IndexModel, ResolvedIndex,
};
use crate::text::{lemma_text_lt_total, lemma_text_lt_transitive, str_eq, str_lt, text_lt};

verus! {

/// Whether a sequence of indices is in strictly ascending order of names.
pub open spec fn sorted_by_name(s: Seq<IndexModel>) -> bool {
    forall|i: int, j: int|
        0 <= i < j < s.len() ==> text_lt(#[trigger] s[i].name, #[trigger] s[j].name)
}

/// The first position at or after `from` whose name does not come before
/// `name`, or the length where all names do.
pub open spec fn insert_position(s: Seq<IndexModel>, name: Seq<char>, from: int) -> int
    decreases s.len() - from,
{
    if from < 0 || from >= s.len() || !text_lt(s[from].name, name) {
        from
    } else {
        insert_position(s, name, from + 1)
    }
}

/// A sorted sequence with one more index: it takes the place of the index
/// of the same name, or else goes where the order puts it.
pub open spec fn sorted_insert(s: Seq<IndexModel>, x: IndexModel) -> Seq<IndexModel> {
    let p = insert_position(s, x.name, 0);
    if p < s.len() && s[p].name == x.name {
        s.update(p, x)
    } else {
        s.insert(p, x)
    }
}

/// The indices in ascending order of names, where of several indices of one
/// name the last one counts.
pub open spec fn normalize(s: Seq<IndexModel>) -> Seq<IndexModel>
    decreases s.len(),
{
    if s.len() == 0 {
        Seq::empty()
    } else {
        sorted_insert(normalize(s.drop_last()), s.last())
    }
}

/// `insert_position` lies in range; every name before it comes before
/// `name`, and the name at it does not.
pub proof fn lemma_insert_position(s: Seq<IndexModel>, name: Seq<char>, from: int)
    requires
        0 <= from <= s.len(),
    ensures
        from <= insert_position(s, name, from) <= s.len(),
        forall|j: int| from <= j < insert_position(s, name, from) ==> text_lt(s[j].name, name),
        insert_position(s, name, from) < s.len() ==> !text_lt(
            s[insert_position(s, name, from)].name,
            name,
        ),
    decreases s.len() - from,
{
    if from < s.len() && text_lt(s[from].name, name) {
        lemma_insert_position(s, name, from + 1);
    }
}

/// Inserting into a sorted sequence gives a sorted sequence.
pub proof fn lemma_sorted_insert(s: Seq<IndexModel>, x: IndexModel)
    requires
        sorted_by_name(s),
    ensures
        sorted_by_name(sorted_insert(s, x)),
{
    let p = insert_position(s, x.name, 0);
    lemma_insert_position(s, x.name, 0);
    let out = sorted_insert(s, x);
    assert forall|i: int, j: int| 0 <= i < j < out.len() implies text_lt(
        #[trigger] out[i].name,
        #[trigger] out[j].name,
    ) by {
        if p < s.len() && s[p].name == x.name {
            assert(out[i].name == s[i].name);
            assert(out[j].name == s[j].name);
        } else {
            // x stands at p; what stood at p and after moved up by one
            if p < s.len() {
                lemma_text_lt_total(s[p].name, x.name);
            }
            if j < p {
                assert(out[i] == s[i] && out[j] == s[j]);
            } else if j == p {
                assert(out[i] == s[i]);
            } else if i == p {
                assert(out[j] == s[j - 1]);
                if j - 1 > p {
                    lemma_text_lt_transitive(x.name, s[p].name, s[j - 1].name);
                }
            } else if i < p {
                assert(out[i] == s[i] && out[j] == s[j - 1]);
            } else {
                assert(out[i] == s[i - 1] && out[j] == s[j - 1]);
            }
        }
    }
}

/// The normalized indices are in strictly ascending order of names.
pub proof fn lemma_normalize_sorted(s: Seq<IndexModel>)
    ensures
        sorted_by_name(normalize(s)),
    decreases s.len(),
{
    if s.len() > 0 {
        lemma_normalize_sorted(s.drop_last());
        lemma_sorted_insert(normalize(s.drop_last()), s.last());
    }
}

/// In a sorted sequence an index is what its name stands for.
pub proof fn lemma_lookup_sorted(s: Seq<IndexModel>, j: int)
    requires
        sorted_by_name(s),
        0 <= j < s.len(),
    ensures
        lookup_index(s, s[j].name) == Some(s[j]),
{
    let name = s[j].name;
    let found = index_position(s, name, s.len() as int);
    lemma_index_position(s, name, s.len() as int);
    lemma_text_lt_total(name, name);
    if found > j {
        assert(text_lt(s[j].name, s[found].name));
    }
}

/// A name that no index has stands for none.
pub proof fn lemma_lookup_absent(s: Seq<IndexModel>, name: Seq<char>)
    requires
        forall|j: int| 0 <= j < s.len() ==> (#[trigger] s[j]).name != name,
    ensures
        lookup_index(s, name) is None,
{
    lemma_index_position(s, name, s.len() as int);
}

/// After an index was put into a sorted sequence, its name stands for it,
/// and every other name stands for what it stood for before.
pub proof fn lemma_sorted_insert_lookup(s: Seq<IndexModel>, x: IndexModel, name: Seq<char>)
    requires
        sorted_by_name(s),
    ensures
        lookup_index(sorted_insert(s, x), name) == if name == x.name {
            Some(x)
        } else {
            lookup_index(s, name)
        },
{
    let p = insert_position(s, x.name, 0);
    let out = sorted_insert(s, x);
    let replaced = p < s.len() && s[p].name == x.name;
    lemma_insert_position(s, x.name, 0);
    lemma_sorted_insert(s, x);
    assert(out[p] == x);
    if name == x.name {
        lemma_lookup_sorted(out, p);
    } else {
        let j = index_position(s, name, s.len() as int);
        lemma_index_position(s, name, s.len() as int);
        if j >= 0 {
            let k = if replaced || j < p {
                j
            } else {
                j + 1
            };
            assert(out[k] == s[j]);
            lemma_lookup_sorted(out, k);
        } else {
            assert forall|k: int| 0 <= k < out.len() implies (#[trigger] out[k]).name != name by {
                if k != p {
                    let i = if replaced || k < p {
                        k
                    } else {
                        k - 1
                    };
                    assert(out[k] == s[i]);
                }
            }
            lemma_lookup_absent(out, name);
        }
    }
}

/// Among the first `upto` indices of a sequence, a name stands for what it
/// stands for in the sequence cut off there.
proof fn lemma_index_position_prefix(s: Seq<IndexModel>, name: Seq<char>, upto: int)
    requires
        0 <= upto < s.len(),
    ensures
        index_position(s, name, upto) == index_position(s.drop_last(), name, upto),
    decreases upto,
{
    if upto > 0 && s[upto - 1].name != name {
        lemma_index_position_prefix(s, name, upto - 1);
    }
}

/// Putting indices in order does not change what a name stands for.
pub proof fn lemma_normalize_lookup(s: Seq<IndexModel>, name: Seq<char>)
    ensures
        lookup_index(normalize(s), name) == lookup_index(s, name),
    decreases s.len(),
{
    if s.len() > 0 {
        let init = s.drop_last();
        lemma_normalize_lookup(init, name);
        lemma_normalize_sorted(init);
        lemma_sorted_insert_lookup(normalize(init), s.last(), name);
        if s.last().name != name {
            let n = s.len() - 1;
            lemma_index_position_prefix(s, name, n);
            lemma_index_position(init, name, n);
            let i = index_position(init, name, n);
            assert(index_position(s, name, s.len() as int) == i);
            if i >= 0 {
                assert(s[i] == init[i]);
            }
        }
    }
}

/// Puts `item` into a sorted list of indices.
pub(crate) fn insert_sorted(out: &mut Vec<ResolvedIndex>, item: ResolvedIndex)
    ensures
        index_models(final(out)@) == sorted_insert(index_models(old(out)@), item@),
{
    let ghost before = index_models(out@);
    let mut p: usize = 0;
    while p < out.len() && str_lt(out[p].name.as_str(), item.name.as_str())
        invariant
            p <= out@.len(),
            before == index_models(out@),
            out@ == old(out)@,
            insert_position(before, item@.name, 0) == insert_position(before, item@.name, p as int),
        decreases out@.len() - p,
    {
        p += 1;
    }
    if p < out.len() && str_eq(out[p].name.as_str(), item.name.as_str()) {
        let ghost model = item@;
        out.set(p, item);
        assert(index_models(out@) =~= before.update(p as int, model));
    } else {
        let ghost model = item@;
        out.insert(p, item);
        assert(index_models(out@) =~= before.insert(p as int, model));
    }
}

} // verus!
