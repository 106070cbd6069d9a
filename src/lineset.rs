//! An insertion-ordered set of lines, kept in an `indexmap::IndexMap` from
//! each line's key to the line as it was first seen.
use vstd::prelude::*;
use indexmap::IndexMap;
use crate::policy::{line_key, trim_str};

verus! {

#[verifier::external_type_specification]
#[verifier::external_body]
#[verifier::reject_recursive_types(K)]
#[verifier::reject_recursive_types(V)]
#[verifier::reject_recursive_types(S)]
pub struct ExIndexMap<K, V, S>(IndexMap<K, V, S>);

/// The entries of an `IndexMap`, key and value, in the order their keys were
/// first inserted.
pub uninterp spec fn index_map_entries(m: IndexMap<String, String>) -> Seq<(Seq<char>, Seq<char>)>;

/// The keys of a sequence of entries.
pub open spec fn entry_keys(e: Seq<(Seq<char>, Seq<char>)>) -> Seq<Seq<char>> {
    e.map_values(|p: (Seq<char>, Seq<char>)| p.0)
}

/// The values of a sequence of entries.
pub open spec fn entry_values(e: Seq<(Seq<char>, Seq<char>)>) -> Seq<Seq<char>> {
    e.map_values(|p: (Seq<char>, Seq<char>)| p.1)
}

/// Relies on `IndexMap::new`: a new map holds nothing.
#[verifier::external_body]
fn index_map_new() -> (r: IndexMap<String, String>)
    ensures
        index_map_entries(r) == Seq::<(Seq<char>, Seq<char>)>::empty(),
{
    IndexMap::new()
}

/// Relies on `IndexMap::contains_key`: whether a key equal to `key` is present.
#[verifier::external_body]
fn index_map_contains_key(m: &IndexMap<String, String>, key: &str) -> (r: bool)
    ensures
        r == entry_keys(index_map_entries(*m)).contains(key@),
{
    m.contains_key(key)
}

/// Relies on `IndexMap::insert`: a pair whose key is absent goes last in
/// order, and `None` is returned.
#[verifier::external_body]
fn index_map_insert(m: &mut IndexMap<String, String>, key: String, value: String) -> (r: Option<
    String,
>)
    requires
        !entry_keys(index_map_entries(*old(m))).contains(key@),
    ensures
        r is None,
        index_map_entries(*final(m)) == index_map_entries(*old(m)).push((key@, value@)),
{
    m.insert(key, value)
}

/// Relies on `IndexMap::values`: the values in order, here cloned.
#[verifier::external_body]
fn index_map_values(m: &IndexMap<String, String>) -> (r: Vec<String>)
    ensures
        r@.map_values(|x: String| x@) == entry_values(index_map_entries(*m)),
{
    m.values().cloned().collect()
}

/// An insertion-ordered set of lines. Each line is held under a key (the line
/// itself, or the line trimmed); no two lines share a key, and a line is held
/// as it was first inserted, in insertion order.
pub struct LineSet {
    items: IndexMap<String, String>,
}

impl View for LineSet {
    type V = Seq<Seq<char>>;

    /// The lines, in insertion order.
    closed spec fn view(&self) -> Seq<Seq<char>> {
        entry_values(index_map_entries(self.items))
    }
}

impl LineSet {
    /// The keys the lines are held under, in insertion order.
    pub closed spec fn keys(&self) -> Seq<Seq<char>> {
        entry_keys(index_map_entries(self.items))
    }

    /// Each line is held under its key for the given trimming rule, and no two
    /// lines share a key.
    pub open spec fn wf(&self, trim: bool) -> bool {
        &&& self.keys().len() == self@.len()
        &&& self.keys().no_duplicates()
        &&& forall|i: int| 0 <= i < self@.len() ==> #[trigger] self.keys()[i] == line_key(self@[i], trim)
    }

    /// An empty set.
    pub fn new() -> (r: LineSet)
        ensures
            r@ == Seq::<Seq<char>>::empty(),
            r.keys() == Seq::<Seq<char>>::empty(),
            forall|trim: bool| r.wf(trim),
    {
        let r = LineSet { items: index_map_new() };
        proof {
            assert(r@ =~= Seq::<Seq<char>>::empty());
            assert(r.keys() =~= Seq::<Seq<char>>::empty());
        }
        r
    }

    /// Whether a line is held under `key`.
    pub fn contains(&self, key: &str) -> (r: bool)
        ensures
            r == self.keys().contains(key@),
    {
        index_map_contains_key(&self.items, key)
    }

    /// Adds `line` at the end unless a line with the same key is already held;
    /// returns whether it was added.
    pub fn insert(&mut self, line: String, trim: bool) -> (r: bool)
        requires
            old(self).wf(trim),
        ensures
            final(self).wf(trim),
            r == !old(self).keys().contains(line_key(line@, trim)),
            final(self)@ == if r {
                old(self)@.push(line@)
            } else {
                old(self)@
            },
            final(self).keys() == if r {
                old(self).keys().push(line_key(line@, trim))
            } else {
                old(self).keys()
            },
    {
        let key: String = if trim {
            trim_str(line.as_str()).to_owned()
        } else {
            line.clone()
        };
        if index_map_contains_key(&self.items, key.as_str()) {
            return false;
        }
        let ghost before = index_map_entries(self.items);
        let ghost k = key@;
        index_map_insert(&mut self.items, key, line);
        proof {
            let after = index_map_entries(self.items);
            assert(entry_keys(after) =~= entry_keys(before).push(k));
            assert(entry_values(after) =~= entry_values(before).push(line@));
            let ks = self.keys();
            assert forall|i: int, j: int|
                0 <= i < ks.len() && 0 <= j < ks.len() && i != j implies ks[i] != ks[j] by {
                if i == ks.len() - 1 {
                    assert(entry_keys(before)[j] == ks[j]);
                } else if j == ks.len() - 1 {
                    assert(entry_keys(before)[i] == ks[i]);
                }
            }
            assert forall|i: int| 0 <= i < self@.len() implies #[trigger] self.keys()[i] == line_key(
                self@[i],
                trim,
            ) by {
                if i < self@.len() - 1 {
                    assert(self.keys()[i] == old(self).keys()[i]);
                    assert(self@[i] == old(self)@[i]);
                }
            }
        }
        true
    }

    /// The lines, in insertion order.
    pub fn lines(&self) -> (r: Vec<String>)
        ensures
            r@.map_values(|x: String| x@) == self@,
    {
        index_map_values(&self.items)
    }

    /// A well-formed set holds no line twice.
    pub proof fn lemma_no_duplicate_lines(&self, trim: bool)
        requires
            self.wf(trim),
        ensures
            self@.no_duplicates(),
    {
        assert forall|i: int, j: int|
            0 <= i < self@.len() && 0 <= j < self@.len() && i != j implies self@[i] != self@[j] by {
            assert(self.keys()[i] == line_key(self@[i], trim));
            assert(self.keys()[j] == line_key(self@[j], trim));
        }
    }
}

} // verus!
