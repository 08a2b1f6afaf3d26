//! The fxhash sets and maps the hull construction and the hull check use,
//! keyed by plain integers and pairs of them.

use vstd::prelude::*;
use std::hash::BuildHasherDefault;
use fxhash::{FxHashMap, FxHashSet, FxHasher};

verus! {

/// A set of index pairs.
pub type PairSet = FxHashSet<(usize, usize)>;

/// Counts keyed by index pairs.
pub type PairCounts = FxHashMap<(usize, usize), u32>;

/// fxhash's `FxHasher`, known to Verus as an opaque type.
#[verifier::external_type_specification]
#[verifier::external_body]
pub struct ExFxHasher(FxHasher);

/// std's `BuildHasherDefault`, the builder fxhash's maps and sets use, known to
/// Verus as an opaque type.
#[verifier::external_type_specification]
#[verifier::external_body]
#[verifier::reject_recursive_types(H)]
pub struct ExBuildHasherDefault<H>(BuildHasherDefault<H>);

/// `FxHashSet::default()` (std's `HashSet::default` with the fxhash builder):
/// an empty set.
#[verifier::external_body]
pub(crate) fn pair_set_new() -> (s: PairSet)
    ensures
        s@ == Set::<(usize, usize)>::empty(),
{
    FxHashSet::default()
}

/// `HashSet::insert` on a set of index pairs: the set afterwards holds the
/// pair besides what it held.
#[verifier::external_body]
pub(crate) fn pair_set_insert(s: &mut PairSet, p: (usize, usize))
    ensures
        final(s)@ == old(s)@.insert(p),
{
    s.insert(p);
}

/// `HashSet::contains` on a set of index pairs.
#[verifier::external_body]
pub(crate) fn pair_set_contains(s: &PairSet, p: (usize, usize)) -> (r: bool)
    ensures
        r == s@.contains(p),
{
    s.contains(&p)
}

/// `HashSet::iter` on a set of index pairs, collected: every element exactly
/// once, in the order in which the set is walked (not stated).
#[verifier::external_body]
pub(crate) fn pair_set_elements(s: &PairSet) -> (v: Vec<(usize, usize)>)
    ensures
        v@.no_duplicates(),
        v@.to_set() == s@,
{
    s.iter().copied().collect()
}

/// `FxHashSet::default()` for a set of indices: an empty set.
#[verifier::external_body]
pub(crate) fn index_set_new() -> (s: FxHashSet<usize>)
    ensures
        s@ == Set::<usize>::empty(),
{
    FxHashSet::default()
}

/// `HashSet::insert` on a set of indices.
#[verifier::external_body]
pub(crate) fn index_set_insert(s: &mut FxHashSet<usize>, i: usize)
    ensures
        final(s)@ == old(s)@.insert(i),
{
    s.insert(i);
}

/// `HashSet::len` on a set of indices: the number of elements.
#[verifier::external_body]
pub(crate) fn index_set_len(s: &FxHashSet<usize>) -> (r: usize)
    ensures
        r == s@.len(),
{
    s.len()
}

/// `FxHashMap::default()` for counts keyed by index pairs: an empty map.
#[verifier::external_body]
pub(crate) fn pair_count_new() -> (m: PairCounts)
    ensures
        m@.dom() == Set::<(usize, usize)>::empty(),
{
    FxHashMap::default()
}

/// `HashMap::get` on counts keyed by index pairs.
#[verifier::external_body]
pub(crate) fn pair_count_get(m: &PairCounts, p: (usize, usize)) -> (r: Option<u32>)
    ensures
        r == (if m@.contains_key(p) { Some(m@[p]) } else { None::<u32> }),
{
    m.get(&p).copied()
}

/// `HashMap::insert` on counts keyed by index pairs: the map afterwards gives
/// the new count for the pair and is unchanged elsewhere.
#[verifier::external_body]
pub(crate) fn pair_count_insert(m: &mut PairCounts, p: (usize, usize), c: u32)
    ensures
        final(m)@ == old(m)@.insert(p, c),
{
    m.insert(p, c);
}

} // verus!
