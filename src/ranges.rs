//! Sets of `usize` values and maps from `usize` values stored as coalesced
//! ranges, backed by `rangemap`.
use rangemap::{RangeMap, RangeSet};
use vstd::prelude::*;

verus! {

/// `rangemap::RangeSet`, opaque; its content is `covered`.
#[verifier::external_type_specification]
#[verifier::external_body]
#[verifier::reject_recursive_types(T)]
pub struct ExRangeSet<T>(RangeSet<T>);

/// The values covered by the ranges stored in a set.
pub uninterp spec fn covered(s: RangeSet<usize>) -> Set<int>;

/// The half-open interval `[start, end)` of integers.
pub open spec fn interval(start: int, end: int) -> Set<int> {
    Set::new(|i: int| start <= i < end)
}

/// Relies on `rangemap::RangeSet::new`: a new set covers no value.
#[verifier::external_body]
pub(crate) fn empty_ranges() -> (r: RangeSet<usize>)
    ensures
        covered(r) == Set::<int>::empty(),
{
    RangeSet::new()
}

/// Relies on `rangemap::RangeSet::contains`: whether a stored range covers `x`.
#[verifier::external_body]
pub(crate) fn ranges_contain(s: &RangeSet<usize>, x: usize) -> (r: bool)
    ensures
        r == covered(*s).contains(x as int),
{
    s.contains(&x)
}

/// Relies on `rangemap::RangeSet::insert`: afterwards the set covers what it
/// covered before and every value of `start..end`; coalescing adjacent ranges
/// changes no covered value. It panics on an empty range.
#[verifier::external_body]
pub(crate) fn ranges_insert(s: &mut RangeSet<usize>, start: usize, end: usize)
    requires
        start < end,
    ensures
        covered(*final(s)) == covered(*old(s)).union(interval(start as int, end as int)),
{
    s.insert(start..end)
}

/// `rangemap::RangeMap`, opaque; the content of the maps used here is
/// `point_values`.
#[verifier::external_type_specification]
#[verifier::external_body]
#[verifier::reject_recursive_types(K)]
#[verifier::reject_recursive_types(V)]
pub struct ExRangeMap<K, V>(RangeMap<K, V>);

/// A pair of starts: where a key's region starts, and where its image starts.
pub type Starts = (usize, usize);

/// A map from `usize` keys to the starts of the range that holds them.
pub type StartsMap = RangeMap<usize, Starts>;

/// The value that each covered key of a map holds.
pub uninterp spec fn point_values(m: StartsMap) -> Map<int, Starts>;

/// Relies on `rangemap::RangeMap::new`: a new map covers no key.
#[verifier::external_body]
pub(crate) fn empty_range_map() -> (r: StartsMap)
    ensures
        point_values(r).dom() == Set::<int>::empty(),
{
    RangeMap::new()
}

/// Relies on `rangemap::RangeMap::get`: the value of the stored range that
/// covers `k`, if one does.
#[verifier::external_body]
pub(crate) fn range_map_get(m: &StartsMap, k: usize) -> (r: Option<Starts>)
    ensures
        r is Some <==> point_values(*m).contains_key(k as int),
        r is Some ==> r->0 == point_values(*m)[k as int],
{
    m.get(&k).copied()
}

/// Relies on `rangemap::RangeMap::insert`: afterwards every key of
/// `start..end` holds `v`, and every other key holds what it held before;
/// trimming overlapped ranges and coalescing equal neighbours changes no
/// key's value. It panics on an empty range.
#[verifier::external_body]
pub(crate) fn range_map_insert(m: &mut StartsMap, start: usize, end: usize, v: Starts)
    requires
        start < end,
    ensures
        point_values(*final(m)) == override_range(point_values(*old(m)), start as int, end as int, v),
{
    m.insert(start..end, v)
}

/// `m` with every key of `[start, end)` mapped to `v`.
pub open spec fn override_range(m: Map<int, Starts>, start: int, end: int, v: Starts) -> Map<int, Starts> {
    Map::new(
        |k: int| (start <= k < end) || m.contains_key(k),
        |k: int|
            if start <= k < end {
                v
            } else {
                m[k]
            },
    )
}

} // verus!
