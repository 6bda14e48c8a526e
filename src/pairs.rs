use vstd::prelude::*;
use core::hash::BuildHasherDefault;
use rustc_hash::{FxHashMap, FxHasher};
use crate::types::CharAlignment;

verus! {

/// Declares rustc_hash's `FxHasher`, the hasher of `FxHashMap`, as an opaque type.
#[verifier::external_type_specification]
#[verifier::external_body]
pub struct ExFxHasher(FxHasher);

/// Declares std's `BuildHasherDefault`, through which `FxHashMap` builds its
/// hashers, as an opaque type.
#[verifier::external_type_specification]
#[verifier::external_body]
#[verifier::reject_recursive_types(H)]
pub struct ExBuildHasherDefault<H>(BuildHasherDefault<H>);

/// A (target index, guess index) pair.
pub type PairKey = (usize, usize);

/// Feedback patterns keyed by a pair of word indices (target, guess).
pub type PatternTable = FxHashMap<PairKey, Vec<CharAlignment>>;

/// The patterns held in a table.
pub uninterp spec fn table_entries(t: PatternTable) -> Map<(usize, usize), Seq<CharAlignment>>;

/// Relies on `FxHashMap::default` (rustc_hash): a new map holds no entry.
#[verifier::external_body]
pub(crate) fn table_new() -> (r: PatternTable)
    ensures
        forall|k: PairKey| !table_entries(r).contains_key(k),
{
    FxHashMap::default()
}

/// Relies on `HashMap::insert` under rustc_hash's `FxHashMap`: afterwards the
/// key maps to the new value and every other key keeps its value.
#[verifier::external_body]
pub(crate) fn table_insert(t: &mut PatternTable, key: (usize, usize), value: Vec<CharAlignment>)
    ensures
        table_entries(*final(t)) == table_entries(*old(t)).insert(key, value@),
{
    t.insert(key, value);
}

/// Relies on `HashMap::get` under rustc_hash's `FxHashMap`: the value stored
/// under the key, copied, or `None` where the key is absent.
#[verifier::external_body]
pub(crate) fn table_get(t: &PatternTable, key: (usize, usize)) -> (r: Option<Vec<CharAlignment>>)
    ensures
        r is Some <==> table_entries(*t).contains_key(key),
        r is Some ==> r->0@ == table_entries(*t)[key],
{
    t.get(&key).cloned()
}

} // verus!
