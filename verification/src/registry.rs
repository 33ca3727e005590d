//! One index per key, and the coverage of a query under its key.
//!
//! The registry is built once from all reference records. It groups them by
//! key and builds one index for each group. After that it is only read: no
//! overlap or coverage is ever computed across two keys.
use crate::coverage::{coverage, covered_positions, covers, CoverageResult};
use crate::error::RegistryError;
use crate::index::{all_valid, overlapping_query, Backend, IntervalIndex};
use crate::interval::Interval;
use vstd::hash_map::StringHashMap;
use vstd::multiset::Multiset;
use vstd::prelude::*;

verus! {

/// Whether one of `records` has the key `key`.
pub open spec fn has_key(records: Seq<(String, Interval)>, key: Seq<char>) -> bool {
    exists|i: int| 0 <= i < records.len() && (#[trigger] records[i]).0@ == key
}

/// The intervals of the records with the key `key`, in the order of the records.
pub open spec fn intervals_of(records: Seq<(String, Interval)>, key: Seq<char>) -> Seq<Interval>
    decreases records.len(),
{
    if records.len() == 0 {
        Seq::empty()
    } else {
        let before = intervals_of(records.drop_last(), key);
        if records.last().0@ == key {
            before.push(records.last().1)
        } else {
            before
        }
    }
}

/// What a registry built from `records` holds: for each key that occurs, the
/// intervals of its records, each as often as it occurs.
pub open spec fn grouped(records: Seq<(String, Interval)>) -> Map<Seq<char>, Multiset<Interval>> {
    Map::new(
        |key: Seq<char>| has_key(records, key),
        |key: Seq<char>| intervals_of(records, key).to_multiset(),
    )
}

/// `records[k]` is the first record whose interval holds no position.
pub open spec fn first_invalid_record(records: Seq<(String, Interval)>, k: int) -> bool {
    &&& 0 <= k < records.len()
    &&& !records[k].1.valid()
    &&& forall|j: int| 0 <= j < k ==> (#[trigger] records[j]).1.valid()
}

/// Whether at least one interval of `held` holds position `p`.
pub open spec fn held_covers(held: Multiset<Interval>, p: int) -> bool {
    exists|iv: Interval| #![trigger held.count(iv)] held.count(iv) > 0 && iv.holds(p)
}

/// The positions of the query that at least one interval of `held` holds.
pub open spec fn held_positions(query_start: u32, query_end: u32, held: Multiset<Interval>) -> Set<
    int,
> {
    Set::new(|p: int| query_start <= p < query_end && held_covers(held, p))
}

/// The number of intervals of `held` that overlap the query, an interval
/// that is held twice counting twice.
pub open spec fn held_overlaps(query_start: u32, query_end: u32, held: Multiset<Interval>) -> nat {
    held.filter(overlapping_query(query_start, query_end)).len()
}

/// The number of positions of the query that the intervals of `held` cover.
pub open spec fn held_coverage(query_start: u32, query_end: u32, held: Multiset<Interval>) -> nat {
    held_positions(query_start, query_end, held).len()
}

/// Every key of `records`, and no other, has a slot below `owner.len()`, and
/// no two keys share one: `owner` tells whose each slot is.
spec fn slots_of(
    slots: Map<Seq<char>, usize>,
    owner: Seq<Seq<char>>,
    records: Seq<(String, Interval)>,
) -> bool {
    &&& forall|key: Seq<char>| #[trigger] slots.contains_key(key) <==> has_key(records, key)
    &&& forall|key: Seq<char>| #[trigger]
        slots.contains_key(key) ==> slots[key] < owner.len() && owner[slots[key] as int] == key
}

/// The reference intervals of every key, each key with an index of its own.
pub struct KeyedRegistry {
    /// Where the index of each key stands in `indexes`.
    slots: StringHashMap<usize>,
    indexes: Vec<IntervalIndex>,
    backend: Backend,
}

impl View for KeyedRegistry {
    type V = Map<Seq<char>, Multiset<Interval>>;

    /// For each key, the intervals that its index holds.
    closed spec fn view(&self) -> Map<Seq<char>, Multiset<Interval>> {
        Map::new(
            |key: Seq<char>| self.slots@.contains_key(key),
            |key: Seq<char>| self.indexes@[self.slots@[key] as int]@,
        )
    }
}

impl KeyedRegistry {
    #[verifier::type_invariant]
    spec fn consistent(self) -> bool {
        &&& forall|key: Seq<char>| #[trigger]
            self.slots@.contains_key(key) ==> self.slots@[key] < self.indexes@.len()
        &&& forall|i: int|
            0 <= i < self.indexes@.len() ==> (#[trigger] self.indexes@[i]).backend_of()
                == self.backend
    }

    /// The collection that every index of this registry searches with.
    pub closed spec fn backend_of(&self) -> Backend {
        self.backend
    }

    /// Groups `records` by key and builds one index per key, each searching
    /// with `backend`.
    ///
    /// The records may come in any order. If the interval of a record holds no
    /// position, nothing is built: the error names the first such record by
    /// its key and bounds.
    pub fn build(backend: Backend, records: &[(String, Interval)]) -> (built: Result<
        KeyedRegistry,
        RegistryError,
    >)
        ensures
            match built {
                Ok(registry) => {
                    &&& forall|i: int| 0 <= i < records.len() ==> (#[trigger] records[i]).1.valid()
                    &&& registry@ == grouped(records@)
                    &&& registry.backend_of() == backend
                },
                Err(e) => exists|k: int|
                    #![trigger first_invalid_record(records@, k)]
                    {
                        &&& first_invalid_record(records@, k)
                        &&& e matches RegistryError::InvalidInterval { key, start, end }
                        &&& key@ == records[k].0@
                        &&& start == records[k].1.start
                        &&& end == records[k].1.end
                    },
            },
    {
        let (slots, sizes, owner) = match Self::assign_slots(records) {
            Ok(assigned) => assigned,
            Err(e) => {
                return Err(e);
            },
        };
        let groups = Self::fill_groups(records, &slots, &sizes, owner);
        let mut indexes: Vec<IntervalIndex> = Vec::with_capacity(groups.len());
        let mut g: usize = 0;
        while g < groups.len()
            invariant
                g <= groups.len(),
                indexes.len() == g,
                forall|i: int| 0 <= i < groups.len() ==> all_valid(#[trigger] groups[i]@),
                forall|i: int|
                    0 <= i < g ==> (#[trigger] indexes[i])@ == groups[i]@.to_multiset()
                        && indexes[i].backend_of() == backend,
            decreases groups.len() - g,
        {
            let index = IntervalIndex::from_valid(backend, groups[g].as_slice());
            indexes.push(index);
            g += 1;
        }
        let registry = KeyedRegistry { slots, indexes, backend };
        Ok(registry)
    }

    /// Checks every record, gives each key that occurs a slot, and counts the
    /// records of each slot, so that every group can be allotted at its full
    /// size before it is filled.
    fn assign_slots(records: &[(String, Interval)]) -> (assigned: Result<
        (StringHashMap<usize>, Vec<usize>, Ghost<Seq<Seq<char>>>),
        RegistryError,
    >)
        ensures
            match assigned {
                Ok((slots, sizes, owner)) => {
                    &&& forall|i: int| 0 <= i < records.len() ==> (#[trigger] records[i]).1.valid()
                    &&& slots_of(slots@, owner@, records@)
                    &&& sizes.len() == owner@.len()
                },
                Err(e) => exists|k: int|
                    #![trigger first_invalid_record(records@, k)]
                    {
                        &&& first_invalid_record(records@, k)
                        &&& e matches RegistryError::InvalidInterval { key, start, end }
                        &&& key@ == records[k].0@
                        &&& start == records[k].1.start
                        &&& end == records[k].1.end
                    },
            },
    {
        let mut slots: StringHashMap<usize> = StringHashMap::new();
        let mut sizes: Vec<usize> = Vec::new();
        let ghost mut owner: Seq<Seq<char>> = Seq::empty();
        let mut k: usize = 0;
        while k < records.len()
            invariant
                k <= records.len(),
                sizes.len() == owner.len(),
                forall|j: int| 0 <= j < k ==> (#[trigger] records[j]).1.valid(),
                slots_of(slots@, owner, records@.take(k as int)),
                forall|i: int| 0 <= i < sizes.len() ==> #[trigger] sizes[i] <= k,
            decreases records.len() - k,
        {
            let record = &records[k];
            let iv = record.1;
            if !iv.is_valid() {
                proof {
                    assert(first_invalid_record(records@, k as int));
                }
                return Err(
                    RegistryError::InvalidInterval {
                        key: record.0.clone(),
                        start: iv.start,
                        end: iv.end,
                    },
                );
            }
            let ghost seen = records@.take(k as int);
            proof {
                assert(records@.take(k as int + 1) =~= seen.push(*record));
                assert forall|key: Seq<char>|
                    has_key(#[trigger] seen.push(*record), key) <==> has_key(seen, key)
                        || record.0@ == key by {
                    lemma_record_joins_its_group(seen, *record, key);
                }
            }
            let slot = match slots.get(record.0.as_str()) {
                Some(slot) => Some(*slot),
                None => None,
            };
            match slot {
                Some(slot) => {
                    sizes.set(slot, sizes[slot] + 1);
                },
                None => {
                    slots.insert(record.0.clone(), sizes.len());
                    sizes.push(1);
                    proof {
                        owner = owner.push(record.0@);
                    }
                },
            }
            k += 1;
        }
        proof {
            assert(records@.take(k as int) =~= records@);
        }
        Ok((slots, sizes, Ghost(owner)))
    }

    /// Allots one group per slot and puts the interval of every record into
    /// the group of its key.
    fn fill_groups(
        records: &[(String, Interval)],
        slots: &StringHashMap<usize>,
        sizes: &Vec<usize>,
        Ghost(owner): Ghost<Seq<Seq<char>>>,
    ) -> (groups: Vec<Vec<Interval>>)
        requires
            forall|i: int| 0 <= i < records.len() ==> (#[trigger] records[i]).1.valid(),
            slots_of(slots@, owner, records@),
            sizes.len() == owner.len(),
        ensures
            groups.len() == owner.len(),
            forall|i: int| 0 <= i < groups.len() ==> all_valid(#[trigger] groups[i]@),
            forall|key: Seq<char>| #[trigger]
                slots@.contains_key(key) ==> groups[slots@[key] as int]@ == intervals_of(
                    records@,
                    key,
                ),
    {
        let mut groups: Vec<Vec<Interval>> = Vec::with_capacity(sizes.len());
        let mut g: usize = 0;
        while g < sizes.len()
            invariant
                g <= sizes.len(),
                groups.len() == g,
                forall|i: int| 0 <= i < g ==> (#[trigger] groups[i])@ == Seq::<Interval>::empty(),
            decreases sizes.len() - g,
        {
            groups.push(Vec::with_capacity(sizes[g]));
            g += 1;
        }
        let mut k: usize = 0;
        while k < records.len()
            invariant
                k <= records.len(),
                groups.len() == owner.len(),
                forall|i: int| 0 <= i < records.len() ==> (#[trigger] records[i]).1.valid(),
                slots_of(slots@, owner, records@),
                forall|i: int| 0 <= i < groups.len() ==> all_valid(#[trigger] groups[i]@),
                forall|key: Seq<char>| #[trigger]
                    slots@.contains_key(key) ==> groups[slots@[key] as int]@ == intervals_of(
                        records@.take(k as int),
                        key,
                    ),
            decreases records.len() - k,
        {
            let record = &records[k];
            let iv = record.1;
            let ghost seen = records@.take(k as int);
            proof {
                assert(records@.take(k as int + 1) =~= seen.push(*record));
                assert forall|key: Seq<char>|
                    intervals_of(#[trigger] seen.push(*record), key) == if record.0@ == key {
                        intervals_of(seen, key).push(record.1)
                    } else {
                        intervals_of(seen, key)
                    } by {
                    lemma_record_joins_its_group(seen, *record, key);
                }
            }
            match slots.get(record.0.as_str()) {
                Some(slot) => {
                    let slot = *slot;
                    groups[slot].push(iv);
                },
                None => {
                    // Every key of `records` has a slot.
                    proof {
                        assert(false);
                    }
                },
            }
            k += 1;
        }
        proof {
            assert(records@.take(k as int) =~= records@);
        }
        groups
    }

    /// The collection that every index of this registry searches with.
    pub fn backend(&self) -> (kind: Backend)
        ensures
            kind == self.backend_of(),
    {
        self.backend
    }

    /// Tells whether any reference record had the key `key`.
    pub fn contains_key(&self, key: &str) -> (known: bool)
        ensures
            known == self@.contains_key(key@),
    {
        self.slots.contains_key(key)
    }

    /// The number of keys that have an index.
    pub fn key_count(&self) -> (n: usize)
        ensures
            n == self@.dom().len(),
    {
        proof {
            assert(self@.dom() =~= self.slots@.dom());
        }
        self.slots.len()
    }

    /// The coverage of the query `[query_start, query_end)` by the reference
    /// intervals of `key`.
    ///
    /// A key that no reference record had is no fault: the query then gets
    /// the result of no coverage, whatever its bounds. Under a known key, a
    /// query that holds no position is refused.
    pub fn coverage_for(&self, key: &str, query_start: u32, query_end: u32) -> (answer: Result<
        CoverageResult,
        RegistryError,
    >)
        ensures
            match answer {
                Ok(result) => if self@.contains_key(key@) {
                    &&& query_start < query_end
                    &&& result.overlap_count == held_overlaps(query_start, query_end, self@[key@])
                    &&& result.covered_length == held_coverage(query_start, query_end, self@[key@])
                    &&& result.covered_length <= query_end - query_start
                } else {
                    result == (CoverageResult { overlap_count: 0, covered_length: 0 })
                },
                Err(e) => {
                    &&& self@.contains_key(key@)
                    &&& query_start >= query_end
                    &&& e matches RegistryError::InvalidQuery { start, end }
                    &&& start == query_start
                    &&& end == query_end
                },
            },
    {
        proof {
            use_type_invariant(self);
        }
        match self.slots.get(key) {
            None => Ok(CoverageResult { overlap_count: 0, covered_length: 0 }),
            Some(slot) => {
                let index = &self.indexes[*slot];
                match index.overlapping(query_start, query_end) {
                    Err(_) => Err(RegistryError::InvalidQuery { start: query_start, end: query_end }),
                    Ok(found) => {
                        let result = coverage(query_start, query_end, found.as_slice());
                        proof {
                            found@.to_multiset_ensures();
                            lemma_positions_of_sequence(query_start, query_end, found@);
                            lemma_positions_come_from_overlaps(query_start, query_end, index@);
                        }
                        Ok(result)
                    },
                }
            },
        }
    }
}

/// One more record adds its interval to the group of its key and to no other.
pub proof fn lemma_record_joins_its_group(
    records: Seq<(String, Interval)>,
    record: (String, Interval),
    key: Seq<char>,
)
    ensures
        intervals_of(records.push(record), key) == if record.0@ == key {
            intervals_of(records, key).push(record.1)
        } else {
            intervals_of(records, key)
        },
        has_key(records.push(record), key) <==> has_key(records, key) || record.0@ == key,
{
    let more = records.push(record);
    assert(more.drop_last() =~= records);
    assert(more.last() == record);
    if has_key(more, key) {
        let i = choose|i: int| 0 <= i < more.len() && (#[trigger] more[i]).0@ == key;
        if i < records.len() {
            assert(records[i].0@ == key);
        }
    }
    if has_key(records, key) {
        let i = choose|i: int| 0 <= i < records.len() && (#[trigger] records[i]).0@ == key;
        assert(more[i].0@ == key);
    }
    if record.0@ == key {
        assert(more[records.len() as int].0@ == key);
    }
}

/// The intervals of a sequence cover what the multiset of them covers.
pub proof fn lemma_positions_of_sequence(query_start: u32, query_end: u32, s: Seq<Interval>)
    ensures
        covered_positions(query_start, query_end, s) == held_positions(
            query_start,
            query_end,
            s.to_multiset(),
        ),
{
    broadcast use vstd::seq_lib::group_to_multiset_ensures;

    let held = s.to_multiset();
    assert forall|p: int| covers(s, p) <==> held_covers(held, p) by {
        if covers(s, p) {
            let i = choose|i: int| 0 <= i < s.len() && (#[trigger] s[i]).holds(p);
            assert(s.contains(s[i]));
            assert(held.count(s[i]) > 0);
        }
        if held_covers(held, p) {
            let iv = choose|iv: Interval| #![trigger held.count(iv)] held.count(iv) > 0 && iv.holds(p);
            assert(s.contains(iv));
            let i = choose|i: int| 0 <= i < s.len() && s[i] == iv;
            assert(s[i].holds(p));
        }
    }
    assert(covered_positions(query_start, query_end, s) =~= held_positions(
        query_start,
        query_end,
        held,
    ));
}

/// Only intervals that overlap the query cover any of its positions.
pub proof fn lemma_positions_come_from_overlaps(
    query_start: u32,
    query_end: u32,
    held: Multiset<Interval>,
)
    ensures
        held_positions(
            query_start,
            query_end,
            held.filter(overlapping_query(query_start, query_end)),
        ) == held_positions(query_start, query_end, held),
{
    broadcast use vstd::multiset::group_multiset_axioms;

    let chosen = held.filter(overlapping_query(query_start, query_end));
    assert forall|p: int| query_start <= p < query_end implies (#[trigger] held_covers(chosen, p)
        <==> held_covers(held, p)) by {
        if held_covers(chosen, p) {
            let iv = choose|iv: Interval|
                #![trigger chosen.count(iv)]
                chosen.count(iv) > 0 && iv.holds(p);
            assert(held.count(iv) > 0);
        }
        if held_covers(held, p) {
            let iv = choose|iv: Interval| #![trigger held.count(iv)] held.count(iv) > 0 && iv.holds(p);
            assert(overlapping_query(query_start, query_end)(iv));
            assert(chosen.count(iv) > 0);
        }
    }
    assert(held_positions(query_start, query_end, chosen) =~= held_positions(
        query_start,
        query_end,
        held,
    ));
}

/// A key whose only reference interval contains the whole query gives that
/// query one overlap and covers all of it, however far the interval reaches
/// beyond the query.
pub proof fn lemma_single_container(query_start: u32, query_end: u32, iv: Interval)
    requires
        query_start < query_end,
        iv.start <= query_start,
        query_end <= iv.end,
    ensures
        held_overlaps(query_start, query_end, Multiset::singleton(iv)) == 1,
        held_coverage(query_start, query_end, Multiset::singleton(iv)) == query_end - query_start,
{
    broadcast use vstd::multiset::group_multiset_axioms;

    let held = Multiset::singleton(iv);
    assert(overlapping_query(query_start, query_end)(iv));
    assert(held.filter(overlapping_query(query_start, query_end)) =~= held);
    let window = vstd::set_lib::set_int_range(query_start as int, query_end as int);
    vstd::set_lib::lemma_int_range(query_start as int, query_end as int);
    assert forall|p: int| query_start <= p < query_end implies held_covers(held, p) by {
        assert(held.count(iv) > 0 && iv.holds(p));
    }
    assert(held_positions(query_start, query_end, held) =~= window);
}

/// Taking one record away takes its interval out of the group of its key and
/// leaves the other groups as they are.
pub proof fn lemma_group_without_record(records: Seq<(String, Interval)>, i: int, key: Seq<char>)
    requires
        0 <= i < records.len(),
    ensures
        intervals_of(records, key).to_multiset() == if records[i].0@ == key {
            intervals_of(records.remove(i), key).to_multiset().insert(records[i].1)
        } else {
            intervals_of(records.remove(i), key).to_multiset()
        },
    decreases records.len(),
{
    broadcast use vstd::multiset::group_multiset_axioms;

    let front = records.drop_last();
    let last = records.last();
    assert(records =~= front.push(last));
    lemma_record_joins_its_group(front, last, key);
    if i == records.len() - 1 {
        assert(records.remove(i) =~= front);
        vstd::seq_lib::to_multiset_build(intervals_of(front, key), last.1);
    } else {
        let fewer = front.remove(i);
        assert(records.remove(i) =~= fewer.push(last));
        assert(front[i] == records[i]);
        lemma_group_without_record(front, i, key);
        lemma_record_joins_its_group(fewer, last, key);
        vstd::seq_lib::to_multiset_build(intervals_of(front, key), last.1);
        vstd::seq_lib::to_multiset_build(intervals_of(fewer, key), last.1);
        let group = intervals_of(records, key).to_multiset();
        let other = intervals_of(records.remove(i), key).to_multiset();
        if records[i].0@ == key {
            assert(group =~= other.insert(records[i].1));
        } else {
            assert(group =~= other);
        }
    }
}

/// Two lists of the same records, each as often in one as in the other, give
/// the same group to every key.
pub proof fn lemma_groups_ignore_order(
    a: Seq<(String, Interval)>,
    b: Seq<(String, Interval)>,
    key: Seq<char>,
)
    requires
        a.to_multiset() == b.to_multiset(),
    ensures
        has_key(a, key) == has_key(b, key),
        intervals_of(a, key).to_multiset() == intervals_of(b, key).to_multiset(),
    decreases a.len(),
{
    broadcast use vstd::seq_lib::group_to_multiset_ensures;

    assert(a.len() == a.to_multiset().len());
    assert(b.len() == b.to_multiset().len());
    if has_key(a, key) {
        let i = choose|i: int| 0 <= i < a.len() && (#[trigger] a[i]).0@ == key;
        assert(a.contains(a[i]));
        assert(b.to_multiset().count(a[i]) > 0);
        let j = choose|j: int| 0 <= j < b.len() && b[j] == a[i];
        assert(b[j].0@ == key);
    }
    if has_key(b, key) {
        let i = choose|i: int| 0 <= i < b.len() && (#[trigger] b[i]).0@ == key;
        assert(b.contains(b[i]));
        assert(a.to_multiset().count(b[i]) > 0);
        let j = choose|j: int| 0 <= j < a.len() && a[j] == b[i];
        assert(a[j].0@ == key);
    }
    if a.len() > 0 {
        let at = a.len() - 1;
        let record = a[at];
        assert(a.contains(record));
        assert(b.to_multiset().count(record) > 0);
        let j = choose|j: int| 0 <= j < b.len() && b[j] == record;
        assert(a.remove(at).to_multiset() == a.to_multiset().remove(record));
        assert(b.remove(j).to_multiset() == b.to_multiset().remove(record));
        lemma_groups_ignore_order(a.remove(at), b.remove(j), key);
        lemma_group_without_record(a, at, key);
        lemma_group_without_record(b, j, key);
    }
}

/// A registry holds the same whatever the order of the records it is built
/// from.
pub proof fn lemma_grouping_ignores_order(a: Seq<(String, Interval)>, b: Seq<(String, Interval)>)
    requires
        a.to_multiset() == b.to_multiset(),
    ensures
        grouped(a) == grouped(b),
{
    assert forall|key: Seq<char>|
        has_key(a, key) == has_key(b, key) && intervals_of(a, key).to_multiset() == intervals_of(
            b,
            key,
        ).to_multiset() by {
        lemma_groups_ignore_order(a, b, key);
    }
    assert(grouped(a) =~= grouped(b));
}

} // verus!
