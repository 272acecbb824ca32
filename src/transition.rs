//! Named voxel shapes and the scroll-position triggers that select them.
use crate::vector::{sat_add, sat_sub_i64};
use std::collections::BTreeMap;
use vstd::prelude::*;
use vstd::std_specs::btree::spec_btree_map_iter;
use vstd::std_specs::cmp::{OrdSpec, PartialEqSpec};
use vstd::std_specs::iter::IteratorSpec;

verus! {

/// The voxel shapes the scene can morph into.
#[derive(Clone, Copy, Debug, Eq, Hash)]
pub enum VoxelObjects {
    Home,
    CSharp,
    CPlusPLus,
    Rust,
    Containerization,
    Castle,
    Viking,
    Buttplug,
    HandballBird,
    FemogfirsSlangen,
}

impl PartialEq for VoxelObjects {
    fn eq(&self, other: &VoxelObjects) -> (r: bool) {
        self.index() == other.index()
    }
}

impl vstd::std_specs::cmp::PartialEqSpecImpl for VoxelObjects {
    open spec fn obeys_eq_spec() -> bool {
        true
    }

    open spec fn eq_spec(&self, other: &VoxelObjects) -> bool {
        self.ordinal() == other.ordinal()
    }
}

/// Number of shapes in [`VoxelObjects`].
pub const SHAPE_COUNT: usize = 10;

impl VoxelObjects {
    /// Position of the shape in the declaration order.
    pub open spec fn ordinal(self) -> int {
        match self {
            VoxelObjects::Home => 0,
            VoxelObjects::CSharp => 1,
            VoxelObjects::CPlusPLus => 2,
            VoxelObjects::Rust => 3,
            VoxelObjects::Containerization => 4,
            VoxelObjects::Castle => 5,
            VoxelObjects::Viking => 6,
            VoxelObjects::Buttplug => 7,
            VoxelObjects::HandballBird => 8,
            VoxelObjects::FemogfirsSlangen => 9,
        }
    }

    /// Position of the shape in the declaration order.
    pub fn index(&self) -> (r: usize)
        ensures
            r == self.ordinal(),
            r < SHAPE_COUNT,
    {
        match self {
            VoxelObjects::Home => 0,
            VoxelObjects::CSharp => 1,
            VoxelObjects::CPlusPLus => 2,
            VoxelObjects::Rust => 3,
            VoxelObjects::Containerization => 4,
            VoxelObjects::Castle => 5,
            VoxelObjects::Viking => 6,
            VoxelObjects::Buttplug => 7,
            VoxelObjects::HandballBird => 8,
            VoxelObjects::FemogfirsSlangen => 9,
        }
    }
}

/// `number` lies in `[start, end)`.
pub open spec fn spec_is_between(start: int, end: int, number: int) -> bool {
    number >= start && end > number
}

pub fn is_between(start: i64, end: i64, number: i64) -> (r: bool)
    ensures
        r == spec_is_between(start as int, end as int, number as int),
{
    number >= start && end > number
}

/// `es` lists the entries of `m` in ascending key order.
pub open spec fn sorted_listing<T>(es: Seq<(i64, T)>, m: Map<i64, T>) -> bool {
    &&& forall|i: int, j: int| 0 <= i < j < es.len() ==> es[i].0 < es[j].0
    &&& forall|i: int| 0 <= i < es.len() ==> #[trigger] m.contains_key(es[i].0) && m[es[i].0] == es[i].1
    &&& forall|k: i64| #[trigger] m.contains_key(k) ==> exists|i: int| 0 <= i < es.len() && es[i].0 == k
}

proof fn lemma_listing_prefix<T>(a: Seq<(i64, T)>, b: Seq<(i64, T)>, m: Map<i64, T>, i: int)
    requires
        sorted_listing(a, m),
        sorted_listing(b, m),
        0 <= i <= a.len(),
        i <= b.len(),
    ensures
        forall|j: int| 0 <= j < i ==> #[trigger] a[j] == b[j],
    decreases i,
{
    if i > 0 {
        lemma_listing_prefix(a, b, m, i - 1);
        let j = i - 1;
        if a[j].0 < b[j].0 {
            assert(m.contains_key(a[j].0));
            let p = choose|p: int| 0 <= p < b.len() && b[p].0 == a[j].0;
            if p >= j {
                assert(b[p].0 >= b[j].0);
            } else {
                assert(a[p] == b[p]);
            }
        } else if b[j].0 < a[j].0 {
            assert(m.contains_key(b[j].0));
            let p = choose|p: int| 0 <= p < a.len() && a[p].0 == b[j].0;
            if p >= j {
                assert(a[p].0 >= a[j].0);
            } else {
                assert(a[p] == b[p]);
            }
        }
        assert(m.contains_key(a[j].0));
        assert(m.contains_key(b[j].0));
    }
}

/// A map has exactly one listing in ascending key order.
pub proof fn lemma_sorted_listing_unique<T>(a: Seq<(i64, T)>, b: Seq<(i64, T)>, m: Map<i64, T>)
    requires
        sorted_listing(a, m),
        sorted_listing(b, m),
    ensures
        a == b,
{
    if a.len() < b.len() {
        lemma_listing_prefix(a, b, m, a.len() as int);
        let k = b[a.len() as int].0;
        assert(m.contains_key(k));
        let p = choose|p: int| 0 <= p < a.len() && a[p].0 == k;
        assert(a[p] == b[p]);
    } else if b.len() < a.len() {
        lemma_listing_prefix(b, a, m, b.len() as int);
        let k = a[b.len() as int].0;
        assert(m.contains_key(k));
        let p = choose|p: int| 0 <= p < b.len() && b[p].0 == k;
        assert(b[p] == a[p]);
    } else {
        lemma_listing_prefix(a, b, m, a.len() as int);
        assert(a =~= b);
    }
}

/// The bucket of entry `i` runs from the previous key (0 for the first) up to its own.
pub open spec fn bucket_start<T>(es: Seq<(i64, T)>, i: int) -> int {
    if i == 0 {
        0
    } else {
        es[i - 1].0 as int
    }
}

/// First entry, from `i` on, whose bucket holds `position`.
pub open spec fn bucket_from<T>(es: Seq<(i64, T)>, position: int, i: int) -> Option<int>
    decreases es.len() - i,
{
    if i < 0 || i >= es.len() {
        None
    } else if spec_is_between(bucket_start(es, i), es[i].0 as int, position) {
        Some(i)
    } else {
        bucket_from(es, position, i + 1)
    }
}

/// First entry whose bucket holds `position`.
pub open spec fn bucket<T>(es: Seq<(i64, T)>, position: int) -> Option<int> {
    bucket_from(es, position, 0)
}

proof fn lemma_bucket_from_range<T>(es: Seq<(i64, T)>, position: int, i: int)
    ensures
        bucket_from(es, position, i) matches Some(j) ==> 0 <= j < es.len(),
    decreases es.len() - i,
{
    if 0 <= i < es.len() {
        lemma_bucket_from_range(es, position, i + 1);
    }
}

fn sorted_entries<T: Copy>(m: &BTreeMap<i64, T>) -> (r: Vec<(i64, T)>)
    ensures
        sorted_listing(r@, m@),
{
    broadcast use vstd::std_specs::btree::group_btree_axioms, vstd::laws_cmp::group_laws_cmp;

    let mut r: Vec<(i64, T)> = Vec::new();
    let ghost all = spec_btree_map_iter(m).remaining();
    let entries_iter = m.iter();
    proof {
        assert(vstd::laws_cmp::obeys_cmp::<i64>());
        assert(vstd::std_specs::btree::key_obeys_cmp_spec::<i64>());
    }
    for kv in it: entries_iter
        invariant
            it.seq() == all,
            r@ == it.seq().take(it.index() as int).map_values(|kv: (&i64, &T)| (*kv.0, *kv.1)),
    {
        r.push((*kv.0, *kv.1));
        proof {
            assert(r@ =~= it.seq().take(it.index() + 1).map_values(|kv: (&i64, &T)| (*kv.0, *kv.1)));
        }
    }
    proof {
        assert(all.take(all.len() as int) =~= all);
    }
    assert(r@ == all.map_values(|kv: (&i64, &T)| (*kv.0, *kv.1)));
    proof {
        let keys = all.map_values(|kv: (&i64, &T)| *kv.0);
        assert(vstd::std_specs::btree::increasing_seq(keys));
        assert forall|i: int, j: int| 0 <= i < j < r@.len() implies r@[i].0 < r@[j].0 by {
            assert(keys[i].cmp_spec(&keys[j]) is Less);
        }
        assert forall|i: int| 0 <= i < r@.len() implies #[trigger] m@.contains_key(r@[i].0)
            && m@[r@[i].0] == r@[i].1 by {
            assert(r@[i] == (*all[i].0, *all[i].1));
        }
        assert forall|k: i64| #[trigger] m@.contains_key(k) implies exists|i: int|
            0 <= i < r@.len() && r@[i].0 == k by {
            assert(all.contains((&k, &m@[k])));
            let i = choose|i: int| 0 <= i < all.len() && #[trigger] all[i] == (&k, &m@[k]);
            assert(r@[i].0 == k);
        }
    }
    r
}

/// Where `position` falls among the buckets of `es`: the bucket's start and end and
/// its value.
fn find_bucket<T: Copy>(es: &Vec<(i64, T)>, position: i64) -> (r: Option<(i64, i64, T)>)
    ensures
        match bucket(es@, position as int) {
            None => r is None,
            Some(i) => r == Some((bucket_start(es@, i) as i64, es@[i].0, es@[i].1)),
        },
{
    let mut start: i64 = 0;
    let mut i: usize = 0;
    while i < es.len()
        invariant
            i <= es.len(),
            start == bucket_start(es@, i as int),
            bucket(es@, position as int) == bucket_from(es@, position as int, i as int),
        decreases es.len() - i,
    {
        let (n, value) = es[i];
        if is_between(start, n, position) {
            return Some((start, n, value));
        }
        start = n;
        i = i + 1;
    }
    None
}

/// The value of the first bucket of `es` holding `position`, if any.
pub open spec fn lookup_in<T>(es: Seq<(i64, T)>, position: int) -> Option<T> {
    match bucket(es, position) {
        None => None,
        Some(i) => Some(es[i].1),
    }
}

/// Picks a value by the bucket of a scroll position: the keys of `transition_map`,
/// in ascending order, cut the line into buckets `[previous key, key)` (the first
/// starting at 0), each with its key's value.
pub struct TransitionHandler<T> {
    pub transition_map: BTreeMap<i64, T>,
    pub last_transition: Option<T>,
    pub last_position: i64,
}

impl<T: Copy + PartialEq> TransitionHandler<T> {
    /// `r` is the value of the bucket holding `position`, if any.
    pub open spec fn lookup(&self, position: int, r: Option<T>) -> bool {
        exists|es: Seq<(i64, T)>|
            sorted_listing(es, self.transition_map@) && #[trigger] lookup_in(es, position) == r
    }

    pub fn new(transition_map: BTreeMap<i64, T>) -> (r: Self)
        ensures
            r.transition_map == transition_map,
            r.last_transition is None,
            r.last_position == 0,
    {
        Self { transition_map, last_transition: None, last_position: 0 }
    }

    /// The value of the bucket holding `position`, unless it equals the value handed
    /// out last time; records what it found (a repeat changes nothing).
    pub fn get_transition_once(&mut self, position: i64) -> (r: Option<T>)
        requires
            T::obeys_eq_spec(),
        ensures
            final(self).transition_map == old(self).transition_map,
            final(self).last_position == old(self).last_position,
            exists|es: Seq<(i64, T)>|
                sorted_listing(es, old(self).transition_map@) && {
                    let found = #[trigger] lookup_in(es, position as int);
                    if old(self).last_transition is Some && found is Some
                        && old(self).last_transition->Some_0.eq_spec(&found->Some_0) {
                        r is None && final(self).last_transition == old(self).last_transition
                    } else {
                        r == found && final(self).last_transition == found
                    }
                },
    {
        let es = sorted_entries(&self.transition_map);
        let transition: Option<T> = match find_bucket(&es, position) {
            Some((_, _, value)) => Some(value),
            None => None,
        };
        assert(lookup_in(es@, position as int) == transition);
        if let Some(last_trans) = &self.last_transition {
            if let Some(trans) = &transition {
                if last_trans == trans {
                    return None;
                }
            }
        }
        self.last_transition = transition;
        transition
    }

    /// The length of the bucket holding `position`, the offset of `position` in it, and
    /// its value; the value only when the offset is not 0 and differs from the offset
    /// of the previous call, which is recorded. Outside every bucket: `(0, 0, None)`.
    /// Lengths and offsets saturate at the bounds of `i64`.
    pub fn get_transition_per_movement(&mut self, position: i64) -> (r: (i64, i64, Option<T>))
        ensures
            final(self).transition_map == old(self).transition_map,
            final(self).last_transition == old(self).last_transition,
            exists|es: Seq<(i64, T)>|
                sorted_listing(es, old(self).transition_map@) && {
                    let (end, normalized) = match #[trigger] bucket(es, position as int) {
                        None => (0int, 0int),
                        Some(i) => (
                            sat_add(es[i].0 as int, -bucket_start(es, i)),
                            sat_add(position as int, -bucket_start(es, i)),
                        ),
                    };
                    &&& r.0 == end
                    &&& r.1 == normalized
                    &&& final(self).last_position == normalized
                    &&& r.2 == if old(self).last_position == normalized || normalized == 0 {
                        None
                    } else {
                        lookup_in(es, position as int)
                    }
                },
    {
        let es = sorted_entries(&self.transition_map);
        let (end, normalized_position, mut transition) = match find_bucket(&es, position) {
            Some((start, n, value)) => (
                sat_sub_i64(n, start),
                sat_sub_i64(position, start),
                Some(value),
            ),
            None => (0, 0, None),
        };
        if self.last_position == normalized_position || normalized_position == 0 {
            transition = None;
        }
        self.last_position = normalized_position;
        (end, normalized_position, transition)
    }
}

} // verus!
