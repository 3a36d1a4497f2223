//! String-keyed hash tables.
//!
//! The index keeps its postings and bookkeeping in `ahash` tables. Verus does
//! not look inside them: each table type gets a name for what it holds, and
//! each method the index calls gets a thin wrapper whose contract is stated
//! over that name and taken on trust. A key is a `String`; in contracts it is
//! its sequence of characters, which is what `String` equality compares.

use ahash::AHashMap;
use ahash::AHashSet;
use crate::text::views;
use vstd::prelude::*;

verus! {

/// `ahash::RandomState`, the hasher state of the tables. Opaque.
#[verifier::external_type_specification]
#[verifier::external_body]
pub struct ExRandomState(ahash::RandomState);

/// `ahash::AHashMap`. Opaque; what it holds is named per value type below.
#[verifier::external_type_specification]
#[verifier::external_body]
#[verifier::reject_recursive_types(K)]
#[verifier::reject_recursive_types(V)]
#[verifier::reject_recursive_types(S)]
pub struct ExAHashMap<K, V, S>(ahash::AHashMap<K, V, S>);

/// `ahash::AHashSet`. Opaque; what it holds is named below.
#[verifier::external_type_specification]
#[verifier::external_body]
#[verifier::reject_recursive_types(T)]
#[verifier::reject_recursive_types(S)]
pub struct ExAHashSet<T, S>(ahash::AHashSet<T, S>);

// ---------------------------------------------------------------- counts

/// What a table from strings to counts holds.
pub uninterp spec fn counts(m: AHashMap<String, u32>) -> Map<Seq<char>, u32>;

/// `AHashMap::new`: a table that holds nothing.
#[verifier::external_body]
pub(crate) fn counts_new() -> (m: AHashMap<String, u32>)
    ensures
        counts(m) =~= Map::empty(),
{
    AHashMap::new()
}

/// `AHashMap::insert`: binds `key` to `value`, replacing an earlier binding,
/// and leaves every other key as it was.
#[verifier::external_body]
pub(crate) fn counts_insert(m: &mut AHashMap<String, u32>, key: String, value: u32)
    ensures
        counts(*final(m)) == counts(*old(m)).insert(key@, value),
{
    m.insert(key, value);
}

/// `AHashMap::get`: the value bound to `key`, if there is one.
#[verifier::external_body]
pub(crate) fn counts_get(m: &AHashMap<String, u32>, key: &str) -> (r: Option<u32>)
    ensures
        r.is_some() == counts(*m).dom().contains(key@),
        r.is_some() ==> r.unwrap() == counts(*m)[key@],
{
    m.get(key).copied()
}

/// `AHashMap::remove`: unbinds `key` and returns the value it was bound to,
/// if there was one; every other key stays as it was.
#[verifier::external_body]
pub(crate) fn counts_remove(m: &mut AHashMap<String, u32>, key: &str) -> (r: Option<u32>)
    ensures
        counts(*final(m)) == counts(*old(m)).remove(key@),
        r.is_some() == counts(*old(m)).dom().contains(key@),
        r.is_some() ==> r.unwrap() == counts(*old(m))[key@],
{
    m.remove(key)
}

/// `HashMap::len`, reached through the table's `Deref`: the number of keys.
#[verifier::external_body]
pub(crate) fn counts_len(m: &AHashMap<String, u32>) -> (n: usize)
    ensures
        n == counts(*m).dom().len(),
{
    m.len()
}

/// `HashMap::iter`, reached through the table's `Deref`: every binding once,
/// in an order that is not fixed.
#[verifier::external_body]
pub(crate) fn counts_entries(m: &AHashMap<String, u32>) -> (r: Vec<(String, u32)>)
    ensures
        forall|i: int| 0 <= i < r@.len() ==> counts(*m).contains_pair((#[trigger] r@[i]).0@, r@[i].1),
        forall|i: int, j: int| 0 <= i < j < r@.len() ==> (#[trigger] r@[i]).0@ != (#[trigger] r@[j]).0@,
        forall|k: Seq<char>| counts(*m).dom().contains(k) ==> exists|i: int| 0 <= i < r@.len() && (#[trigger] r@[i]).0@ == k,
{
    m.iter().map(|(k, v)| (k.clone(), *v)).collect()
}

// ---------------------------------------------------------------- rows

/// What a table from strings to positions holds.
pub uninterp spec fn slots(m: AHashMap<String, usize>) -> Map<Seq<char>, usize>;

/// `AHashMap::new`: a table that holds nothing.
#[verifier::external_body]
pub(crate) fn slots_new() -> (m: AHashMap<String, usize>)
    ensures
        slots(m) =~= Map::empty(),
{
    AHashMap::new()
}

/// `AHashMap::insert`: binds `key` to `value`, replacing an earlier binding,
/// and leaves every other key as it was.
#[verifier::external_body]
pub(crate) fn slots_insert(m: &mut AHashMap<String, usize>, key: String, value: usize)
    ensures
        slots(*final(m)) == slots(*old(m)).insert(key@, value),
{
    m.insert(key, value);
}

/// `AHashMap::get`: the value bound to `key`, if there is one.
#[verifier::external_body]
pub(crate) fn slots_get(m: &AHashMap<String, usize>, key: &str) -> (r: Option<usize>)
    ensures
        r.is_some() == slots(*m).dom().contains(key@),
        r.is_some() ==> r.unwrap() == slots(*m)[key@],
{
    m.get(key).copied()
}

/// `AHashMap::remove`: unbinds `key`; every other key stays as it was.
#[verifier::external_body]
pub(crate) fn slots_remove(m: &mut AHashMap<String, usize>, key: &str)
    ensures
        slots(*final(m)) == slots(*old(m)).remove(key@),
{
    m.remove(key);
}

// ---------------------------------------------------------------- postings

/// What a table from terms to posting lists holds.
pub uninterp spec fn lists(m: AHashMap<String, AHashMap<String, u32>>) -> Map<Seq<char>, Map<Seq<char>, u32>>;

/// `AHashMap::new`: a table that holds nothing.
#[verifier::external_body]
pub(crate) fn lists_new() -> (m: AHashMap<String, AHashMap<String, u32>>)
    ensures
        lists(m) =~= Map::empty(),
{
    AHashMap::new()
}

/// `AHashMap::insert`: binds `key` to the list `value`, replacing an earlier
/// binding, and leaves every other key as it was.
#[verifier::external_body]
pub(crate) fn lists_insert(m: &mut AHashMap<String, AHashMap<String, u32>>, key: String, value: AHashMap<String, u32>)
    ensures
        lists(*final(m)) == lists(*old(m)).insert(key@, counts(value)),
{
    m.insert(key, value);
}

/// `AHashMap::get`: the list bound to `key`, if there is one.
#[verifier::external_body]
pub(crate) fn lists_get<'a>(m: &'a AHashMap<String, AHashMap<String, u32>>, key: &str) -> (r: Option<&'a AHashMap<String, u32>>)
    ensures
        r.is_some() == lists(*m).dom().contains(key@),
        r.is_some() ==> counts(*r.unwrap()) == lists(*m)[key@],
{
    m.get(key)
}

/// `AHashMap::remove`: unbinds `key` and returns the list it was bound to, if
/// there was one; every other key stays as it was.
#[verifier::external_body]
pub(crate) fn lists_remove(m: &mut AHashMap<String, AHashMap<String, u32>>, key: &str) -> (r: Option<AHashMap<String, u32>>)
    ensures
        lists(*final(m)) == lists(*old(m)).remove(key@),
        r.is_some() == lists(*old(m)).dom().contains(key@),
        r.is_some() ==> counts(r.unwrap()) == lists(*old(m))[key@],
{
    m.remove(key)
}

// ---------------------------------------------------------------- term lists

/// What a table from document identifiers to term lists holds.
pub uninterp spec fn words(m: AHashMap<String, Vec<String>>) -> Map<Seq<char>, Seq<Seq<char>>>;

/// `AHashMap::new`: a table that holds nothing.
#[verifier::external_body]
pub(crate) fn words_new() -> (m: AHashMap<String, Vec<String>>)
    ensures
        words(m) =~= Map::empty(),
{
    AHashMap::new()
}

/// `AHashMap::insert`: binds `key` to the list `value`, replacing an earlier
/// binding, and leaves every other key as it was.
#[verifier::external_body]
pub(crate) fn words_insert(m: &mut AHashMap<String, Vec<String>>, key: String, value: Vec<String>)
    ensures
        words(*final(m)) == words(*old(m)).insert(key@, views(value@)),
{
    m.insert(key, value);
}

/// `AHashMap::remove`: unbinds `key` and returns the list it was bound to, if
/// there was one; every other key stays as it was.
#[verifier::external_body]
pub(crate) fn words_remove(m: &mut AHashMap<String, Vec<String>>, key: &str) -> (r: Option<Vec<String>>)
    ensures
        words(*final(m)) == words(*old(m)).remove(key@),
        r.is_some() == words(*old(m)).dom().contains(key@),
        r.is_some() ==> views(r.unwrap()@) == words(*old(m))[key@],
{
    m.remove(key)
}

// ---------------------------------------------------------------- sets

/// What a set of strings holds.
pub uninterp spec fn members(s: AHashSet<String>) -> Set<Seq<char>>;

/// `AHashSet::new`: a set that holds nothing.
#[verifier::external_body]
pub(crate) fn members_new() -> (s: AHashSet<String>)
    ensures
        members(s) =~= Set::empty(),
{
    AHashSet::new()
}

/// `HashSet::insert`, reached through the set's `Deref`: adds `key` and says
/// whether it was new.
#[verifier::external_body]
pub(crate) fn members_insert(s: &mut AHashSet<String>, key: String) -> (fresh: bool)
    ensures
        members(*final(s)) == members(*old(s)).insert(key@),
        fresh == !members(*old(s)).contains(key@),
{
    s.insert(key)
}

/// `HashSet::contains`, reached through the set's `Deref`.
#[verifier::external_body]
pub(crate) fn members_contains(s: &AHashSet<String>, key: &str) -> (r: bool)
    ensures
        r == members(*s).contains(key@),
{
    s.contains(key)
}

/// `HashSet::remove`, reached through the set's `Deref`: takes `key` out.
#[verifier::external_body]
pub(crate) fn members_remove(s: &mut AHashSet<String>, key: &str)
    ensures
        members(*final(s)) == members(*old(s)).remove(key@),
{
    s.remove(key);
}

/// `HashSet::len`, reached through the set's `Deref`: the number of members.
#[verifier::external_body]
pub(crate) fn members_len(s: &AHashSet<String>) -> (n: usize)
    ensures
        n == members(*s).len(),
{
    s.len()
}

} // verus!
