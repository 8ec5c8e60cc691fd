//! What the library relies on of [`crossbeam_skiplist::SkipMap`].
//!
//! The map is held exclusively while it is changed, so what it holds is a function of the value.

use vstd::prelude::*;
use std::ops::Bound;
use bytes::Bytes;
use crossbeam_skiplist::SkipMap;
use crate::bound;
use crate::bytes_spec;
use crate::key;
use crate::run;
use crate::run::{Entries, Run};

verus! {

/// [`SkipMap`]: a map that keeps its keys in order.
#[verifier::external_type_specification]
#[verifier::external_body]
#[verifier::reject_recursive_types(K)]
#[verifier::reject_recursive_types(V)]
pub struct ExSkipMap<K, V>(crossbeam_skiplist::SkipMap<K, V>);

/// The entries of a map from byte strings to byte strings.
pub uninterp spec fn skip_map_entries(m: SkipMap<Bytes, Bytes>) -> Entries;

/// Entries held in handles, as the run that they denote.
pub open spec fn run_of(s: Seq<(Bytes, Bytes)>) -> Run<Seq<u8>> {
    s.map_values(|e: (Bytes, Bytes)| (bytes_spec::bytes_of(e.0), bytes_spec::bytes_of(e.1)))
}

/// **Entries in handles are read as they are**, one for one.
pub proof fn handles_are_read_as_they_are(s: Seq<(Bytes, Bytes)>)
    ensures
        run_of(s).len() == s.len(),
        forall|i: int|
            0 <= i < s.len() ==> (#[trigger] run_of(s)[i]).0 == bytes_spec::bytes_of(s[i].0)
                && run_of(s)[i].1 == bytes_spec::bytes_of(s[i].1),
{
}

/// [`SkipMap::new`] makes a map without entries.
#[verifier::external_body]
pub(crate) fn skip_map_new() -> (r: SkipMap<Bytes, Bytes>)
    ensures
        skip_map_entries(r) == Entries::empty(),
{
    SkipMap::new()
}

/// [`SkipMap::insert`] puts an entry into the map; an entry that has the key already is replaced.
#[verifier::external_body]
pub(crate) fn skip_map_insert(m: &mut SkipMap<Bytes, Bytes>, key: Bytes, value: Bytes)
    ensures
        skip_map_entries(*final(m)) == skip_map_entries(*old(m)).insert(
            bytes_spec::bytes_of(key),
            bytes_spec::bytes_of(value),
        ),
{
    m.insert(key, value);
}

/// [`SkipMap::get`] finds the entry that has the key, if there is one.
#[verifier::external_body]
pub(crate) fn skip_map_get(m: &SkipMap<Bytes, Bytes>, key: &[u8]) -> (r: Option<Bytes>)
    ensures
        r is Some <==> skip_map_entries(*m).contains_key(key@),
        r matches Some(v) ==> bytes_spec::bytes_of(v) == skip_map_entries(*m)[key@],
{
    m.get(key).map(|e| e.value().clone())
}

/// [`SkipMap::is_empty`] tells whether there is no entry.
#[verifier::external_body]
pub(crate) fn skip_map_is_empty(m: &SkipMap<Bytes, Bytes>) -> (r: bool)
    ensures
        r <==> skip_map_entries(*m) == Entries::empty(),
{
    m.is_empty()
}

/// The first entry that [`SkipMap::range`] walks over: the one with the least key between the
/// bounds. Keys are ordered as [`Bytes`] orders them, which is the order of the byte slices; bounds
/// that leave no room between them give no entry.
#[verifier::external_body]
pub(crate) fn skip_map_first_between(
    m: &SkipMap<Bytes, Bytes>,
    lower: &Bound<Bytes>,
    upper: &Bound<Bytes>,
) -> (r: Option<(Bytes, Bytes)>)
    ensures
        r matches Some(e) ==> {
            let k = bytes_spec::bytes_of(e.0);
            let range = bound::range_of(
                skip_map_entries(*m),
                bound::bytes_bound(*lower),
                bound::bytes_bound(*upper),
            );
            &&& range.contains_key(k)
            &&& range[k] == bytes_spec::bytes_of(e.1)
            &&& forall|j: Seq<u8>| #[trigger] range.contains_key(j) ==> key::le(k, j)
        },
        r is None ==> bound::range_of(
            skip_map_entries(*m),
            bound::bytes_bound(*lower),
            bound::bytes_bound(*upper),
        ) == Entries::empty(),
{
    let mut range = m.range::<Bytes, _>((lower.clone(), upper.clone()));
    range.next().map(|e| (e.key().clone(), e.value().clone()))
}

/// [`SkipMap::iter`] walks over all entries in the order of their keys.
#[verifier::external_body]
pub(crate) fn skip_map_entries_in_order(m: &SkipMap<Bytes, Bytes>) -> (r: Vec<(Bytes, Bytes)>)
    ensures
        run::sorted(run_of(r@)),
        run::run_map(run_of(r@)) == skip_map_entries(*m),
{
    m.iter().map(|e| (e.key().clone(), e.value().clone())).collect()
}

} // verus!
