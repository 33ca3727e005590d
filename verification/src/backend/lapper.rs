//! `rust_lapper::Lapper`: intervals in a vector ordered by start, searched by
//! binary search.
use crate::interval::Interval;
use rust_lapper::Lapper;
use vstd::multiset::Multiset;
use vstd::prelude::*;

verus! {

/// A `Lapper` over `u32` positions that carries no payload.
///
/// `Lapper` bounds its position type by traits of `num_traits`, which Verus
/// does not know, so the type cannot be declared to Verus as it is. It is kept
/// in this struct, whose inside Verus does not look at.
#[verifier::external_body]
pub struct LapperStore {
    inner: Lapper<u32, ()>,
}

/// The intervals that the `Lapper` holds, each as often as it was given.
pub uninterp spec fn lapper_items(store: LapperStore) -> Multiset<Interval>;

/// `Lapper::new`: keeps every interval it is given, duplicates included.
/// (It sorts them and notes the longest length; neither step drops one.)
#[verifier::external_body]
pub(crate) fn lapper_new(intervals: &[Interval]) -> (store: LapperStore)
    ensures
        lapper_items(store) == intervals@.to_multiset(),
{
    LapperStore {
        inner: Lapper::new(
            intervals.iter().map(
                |iv| rust_lapper::Interval { start: iv.start, stop: iv.end, val: () },
            ).collect(),
        ),
    }
}

/// `Lapper::find`: yields the held intervals that begin before `stop` and end
/// after `start`, each as often as it is held, and no others.
#[verifier::external_body]
pub(crate) fn lapper_find(store: &LapperStore, start: u32, stop: u32) -> (found: Vec<Interval>)
    ensures
        found@.to_multiset() == lapper_items(*store).filter(
            |iv: Interval| iv.overlaps(start, stop),
        ),
{
    store.inner.find(start, stop).map(|iv| Interval { start: iv.start, end: iv.stop }).collect()
}

} // verus!
