//! The guest range table and the per-processor translation caches.
//!
//! `MappingManager` owns the table of committed mappings and the cache of
//! open backing objects. Every structural change takes it by `&mut`, which
//! makes it the single point where changes are sequenced, and bumps the
//! generation exactly once. A `VaMapper` borrows the manager only for the
//! duration of one translation, so no translation is in flight while a
//! range is removed; its cached ranges are tagged with the generation they
//! were resolved at and are dropped as soon as that generation is stale.
//! A removal hands back the host mapping to unmap only once the table no
//! longer refers to it.

use vstd::prelude::*;
use crate::range::GuestRange;
use crate::range::HostMapping;
use crate::range::MappingError;
use crate::object_cache::ObjectCache;
use crate::object_cache::OpenObject;
use crate::object_cache::objects_wf;
use crate::object_cache::opened;
use crate::object_cache::acquired;
use crate::object_cache::released;

verus! {

/// One committed backing assignment: guest addresses `guest_range` are
/// backed by the object `identity` from `object_offset` on, which is mapped
/// in the host at `host_va_base`. `generation` is the manager's generation
/// once the entry was committed.
#[derive(Clone, Copy, Debug, PartialEq, Eq, Structural)]
pub struct MappingEntry {
    pub guest_range: GuestRange,
    pub identity: u64,
    pub object_offset: u64,
    pub host_va_base: u64,
    pub generation: u64,
}

impl MappingEntry {
    /// A non-empty range whose host addresses all fit in the address space.
    pub open spec fn wf(self) -> bool {
        &&& self.guest_range.wf()
        &&& self.host_va_base + self.guest_range.len_spec() <= u64::MAX
    }

    /// The host address that backs guest address `addr`.
    pub open spec fn host_va_spec(self, addr: int) -> int {
        self.host_va_base + (addr - self.guest_range.start)
    }

    pub fn host_va(&self, addr: u64) -> (r: u64)
        requires
            self.wf(),
            self.guest_range.contains_spec(addr as int),
        ensures
            r == self.host_va_spec(addr as int),
    {
        self.host_va_base + (addr - self.guest_range.start)
    }
}

/// No two entries of the table overlap.
pub open spec fn ranges_disjoint(s: Seq<MappingEntry>) -> bool {
    forall|i: int, j: int|
        0 <= i < s.len() && 0 <= j < s.len() && i != j ==> !(#[trigger] s[i].guest_range.overlaps_spec(
            #[trigger] s[j].guest_range,
        ))
}

/// Some entry of the table overlaps `range`.
pub open spec fn overlaps_any(s: Seq<MappingEntry>, range: GuestRange) -> bool {
    exists|i: int| 0 <= i < s.len() && #[trigger] s[i].guest_range.overlaps_spec(range)
}

/// Some entry of the table is exactly `range`.
pub open spec fn has_exact(s: Seq<MappingEntry>, range: GuestRange) -> bool {
    exists|i: int| 0 <= i < s.len() && #[trigger] s[i].guest_range == range
}

/// The index of the entry that is exactly `range` (meaningful under `has_exact`).
pub open spec fn exact_index(s: Seq<MappingEntry>, range: GuestRange) -> int {
    choose|i: int| 0 <= i < s.len() && #[trigger] s[i].guest_range == range
}

/// The entry that covers guest address `addr`, if any.
pub open spec fn resolve(s: Seq<MappingEntry>, addr: int) -> Option<MappingEntry> {
    if exists|i: int| 0 <= i < s.len() && #[trigger] s[i].guest_range.contains_spec(addr) {
        Some(s[choose|i: int| 0 <= i < s.len() && #[trigger] s[i].guest_range.contains_spec(addr)])
    } else {
        None
    }
}

/// How many entries of the table use backing object `id`.
pub open spec fn count_identity(s: Seq<MappingEntry>, id: u64) -> nat
    decreases s.len(),
{
    if s.len() == 0 {
        0
    } else {
        count_identity(s.drop_last(), id) + if s.last().identity == id {
            1nat
        } else {
            0nat
        }
    }
}

/// Every entry is backed by an open object that holds its whole range, at
/// the entry's offset; every open object has exactly one holder per entry
/// that uses it.
pub open spec fn backed_by(s: Seq<MappingEntry>, objects: Map<u64, OpenObject>) -> bool {
    &&& forall|i: int|
        0 <= i < s.len() ==> {
            let e = #[trigger] s[i];
            &&& e.wf()
            &&& objects.contains_key(e.identity)
            &&& e.host_va_base == objects[e.identity].mapping.base + e.object_offset
            &&& objects[e.identity].mapping.covers(
                e.object_offset as int,
                e.guest_range.len_spec(),
            )
        }
    &&& forall|id: u64|
        #[trigger] objects.contains_key(id) ==> objects[id].refs == count_identity(s, id)
}

/// The mapping that backs object `id` for an insert: the open object's, or
/// else the outcome of opening it, if that succeeded.
pub open spec fn backing_for(
    objects: Map<u64, OpenObject>,
    id: u64,
    outcome: Option<HostMapping>,
) -> Option<HostMapping> {
    if objects.contains_key(id) {
        Some(objects[id].mapping)
    } else {
        match outcome {
            Some(mapping) if mapping.wf() => Some(mapping),
            _ => None,
        }
    }
}

/// The backing for an insert exists and holds `len` bytes at `offset`.
pub open spec fn fits(
    objects: Map<u64, OpenObject>,
    id: u64,
    outcome: Option<HostMapping>,
    offset: u64,
    range: GuestRange,
) -> bool {
    &&& backing_for(objects, id, outcome) is Some
    &&& backing_for(objects, id, outcome)->0.covers(offset as int, range.len_spec())
}

/// The open objects once one more holder took `id`, opened at `mapping`
/// when it was not open yet.
pub open spec fn taken(objects: Map<u64, OpenObject>, id: u64, mapping: HostMapping) -> Map<
    u64,
    OpenObject,
> {
    if objects.contains_key(id) {
        acquired(objects, id)
    } else {
        opened(objects, id, mapping)
    }
}

/// The abstract state of a manager.
pub struct ManagerView {
    pub entries: Seq<MappingEntry>,
    pub objects: Map<u64, OpenObject>,
    pub generation: u64,
}

pub open spec fn manager_wf(m: ManagerView) -> bool {
    &&& ranges_disjoint(m.entries)
    &&& objects_wf(m.objects)
    &&& backed_by(m.entries, m.objects)
}

/// The owner of the guest range table.
pub struct MappingManager {
    entries: Vec<MappingEntry>,
    objects: ObjectCache,
    generation: u64,
}

proof fn lemma_count_push(s: Seq<MappingEntry>, e: MappingEntry, id: u64)
    ensures
        count_identity(s.push(e), id) == count_identity(s, id) + if e.identity == id {
            1nat
        } else {
            0nat
        },
{
    assert(s.push(e).drop_last() =~= s);
}

proof fn lemma_count_update(s: Seq<MappingEntry>, i: int, e: MappingEntry, id: u64)
    requires
        0 <= i < s.len(),
    ensures
        count_identity(s.update(i, e), id) + (if s[i].identity == id {
            1nat
        } else {
            0nat
        }) == count_identity(s, id) + if e.identity == id {
            1nat
        } else {
            0nat
        },
    decreases s.len(),
{
    if i == s.len() - 1 {
        assert(s.update(i, e).drop_last() =~= s.drop_last());
    } else {
        assert(s.update(i, e).drop_last() =~= s.drop_last().update(i, e));
        lemma_count_update(s.drop_last(), i, e, id);
    }
}

proof fn lemma_count_remove(s: Seq<MappingEntry>, i: int, id: u64)
    requires
        0 <= i < s.len(),
    ensures
        count_identity(s.remove(i), id) + (if s[i].identity == id {
            1nat
        } else {
            0nat
        }) == count_identity(s, id),
    decreases s.len(),
{
    if i == s.len() - 1 {
        assert(s.remove(i) =~= s.drop_last());
    } else {
        assert(s.remove(i).drop_last() =~= s.drop_last().remove(i));
        lemma_count_remove(s.drop_last(), i, id);
    }
}

proof fn lemma_count_bounds(s: Seq<MappingEntry>, id: u64)
    ensures
        count_identity(s, id) <= s.len(),
        count_identity(s, id) == 0 <==> forall|i: int|
            0 <= i < s.len() ==> (#[trigger] s[i]).identity != id,
    decreases s.len(),
{
    if s.len() > 0 {
        lemma_count_bounds(s.drop_last(), id);
        let t = s.drop_last();
        if count_identity(s, id) == 0 {
            assert forall|i: int| 0 <= i < s.len() implies (#[trigger] s[i]).identity != id by {
                if i < s.len() - 1 {
                    assert(s[i] == t[i]);
                }
            }
        }
        if forall|i: int| 0 <= i < s.len() ==> (#[trigger] s[i]).identity != id {
            assert(s[s.len() - 1].identity != id);
            assert forall|i: int| 0 <= i < t.len() implies (#[trigger] t[i]).identity != id by {
                assert(s[i] == t[i]);
            }
        }
    }
}

/// The entry that covers an address is the one `resolve` picks: no other
/// entry of a disjoint table covers it.
pub proof fn lemma_resolve_unique(s: Seq<MappingEntry>, i: int, addr: int)
    requires
        ranges_disjoint(s),
        0 <= i < s.len(),
        s[i].guest_range.contains_spec(addr),
    ensures
        resolve(s, addr) == Some(s[i]),
{
    let k = choose|k: int| 0 <= k < s.len() && #[trigger] s[k].guest_range.contains_spec(addr);
    if k != i {
        assert(s[k].guest_range.overlaps_spec(s[i].guest_range));
    }
}

/// Two entries of a disjoint table with the same range are the same entry.
proof fn lemma_exact_unique(s: Seq<MappingEntry>, i: int, range: GuestRange)
    requires
        ranges_disjoint(s),
        range.wf(),
        0 <= i < s.len(),
        s[i].guest_range == range,
    ensures
        has_exact(s, range),
        exact_index(s, range) == i,
{
    let k = exact_index(s, range);
    if k != i {
        assert(s[k].guest_range.overlaps_spec(s[i].guest_range));
    }
}

/// Removing entry `i` and releasing its object keeps a manager well formed.
proof fn lemma_removed_wf(before: ManagerView, after: ManagerView, i: int)
    requires
        manager_wf(before),
        0 <= i < before.entries.len(),
        after.entries == before.entries.remove(i),
        after.objects == released(before.objects, before.entries[i].identity),
    ensures
        manager_wf(after),
{
    let id = before.entries[i].identity;
    lemma_count_remove(before.entries, i, id);
    lemma_count_bounds(after.entries, id);
    assert forall|x: u64| #[trigger] after.objects.contains_key(x) implies after.objects[x].refs
        == count_identity(after.entries, x) by {
        lemma_count_remove(before.entries, i, x);
    }
    assert forall|k: int| 0 <= k < after.entries.len() implies {
        let e = #[trigger] after.entries[k];
        &&& e.wf()
        &&& after.objects.contains_key(e.identity)
        &&& e.host_va_base == after.objects[e.identity].mapping.base + e.object_offset
        &&& after.objects[e.identity].mapping.covers(
            e.object_offset as int,
            e.guest_range.len_spec(),
        )
    } by {
        let src = if k < i {
            k
        } else {
            k + 1
        };
        assert(after.entries[k] == before.entries[src]);
    }
    assert forall|k: int, l: int|
        0 <= k < after.entries.len() && 0 <= l < after.entries.len() && k != l implies !(
    #[trigger] after.entries[k].guest_range.overlaps_spec(#[trigger] after.entries[l].guest_range)) by {
        let sk = if k < i {
            k
        } else {
            k + 1
        };
        let sl = if l < i {
            l
        } else {
            l + 1
        };
        assert(after.entries[k] == before.entries[sk]);
        assert(after.entries[l] == before.entries[sl]);
    }
}

/// Putting `e` in place of entry `i`, over the same range, and moving its
/// hold from the old object to `e`'s keeps a manager well formed.
proof fn lemma_updated_wf(before: ManagerView, after: ManagerView, i: int, e: MappingEntry)
    requires
        manager_wf(before),
        0 <= i < before.entries.len(),
        e.guest_range == before.entries[i].guest_range,
        e.wf(),
        after.entries == before.entries.update(i, e),
        before.entries[i].identity == e.identity ==> after.objects == before.objects,
        before.entries[i].identity != e.identity ==> {
            &&& (before.objects.contains_key(e.identity) ==> before.objects[e.identity].refs
                < u64::MAX)
            &&& after.objects == released(
                taken(before.objects, e.identity, after.objects[e.identity].mapping),
                before.entries[i].identity,
            )
        },
        objects_wf(after.objects),
        after.objects.contains_key(e.identity),
        e.host_va_base == after.objects[e.identity].mapping.base + e.object_offset,
        after.objects[e.identity].mapping.covers(e.object_offset as int, e.guest_range.len_spec()),
    ensures
        manager_wf(after),
{
    let old_id = before.entries[i].identity;
    lemma_count_update(before.entries, i, e, old_id);
    lemma_count_bounds(after.entries, old_id);
    lemma_count_bounds(before.entries, e.identity);
    assert forall|x: u64| #[trigger] after.objects.contains_key(x) implies after.objects[x].refs
        == count_identity(after.entries, x) by {
        lemma_count_update(before.entries, i, e, x);
    }
    assert forall|k: int| 0 <= k < after.entries.len() implies {
        let f = #[trigger] after.entries[k];
        &&& f.wf()
        &&& after.objects.contains_key(f.identity)
        &&& f.host_va_base == after.objects[f.identity].mapping.base + f.object_offset
        &&& after.objects[f.identity].mapping.covers(
            f.object_offset as int,
            f.guest_range.len_spec(),
        )
    } by {
        if k != i {
            assert(after.entries[k] == before.entries[k]);
        }
    }
    assert forall|k: int, l: int|
        0 <= k < after.entries.len() && 0 <= l < after.entries.len() && k != l implies !(
    #[trigger] after.entries[k].guest_range.overlaps_spec(#[trigger] after.entries[l].guest_range)) by {
        assert(after.entries[k].guest_range == before.entries[k].guest_range);
        assert(after.entries[l].guest_range == before.entries[l].guest_range);
    }
}

impl View for MappingManager {
    type V = ManagerView;

    closed spec fn view(&self) -> ManagerView {
        ManagerView { entries: self.entries@, objects: self.objects@, generation: self.generation }
    }
}

impl MappingManager {
    pub open spec fn wf(&self) -> bool {
        manager_wf(self@)
    }

    /// An empty table at generation zero.
    pub fn new() -> (r: MappingManager)
        ensures
            r.wf(),
            r@.entries == Seq::<MappingEntry>::empty(),
            r@.objects == Map::<u64, OpenObject>::empty(),
            r@.generation == 0,
    {
        MappingManager { entries: Vec::new(), objects: ObjectCache::new(), generation: 0 }
    }

    /// The current generation.
    pub fn generation(&self) -> (r: u64)
        ensures
            r == self@.generation,
    {
        self.generation
    }

    /// The committed entries, in the order they were committed.
    pub fn entries(&self) -> (r: Vec<MappingEntry>)
        ensures
            r@ == self@.entries,
    {
        self.entries.clone()
    }

    /// Whether backing object `identity` must be opened before a range can
    /// be mapped to it (no open object is cached for it).
    pub fn needs_open(&self, identity: u64) -> (r: bool)
        ensures
            r == !self@.objects.contains_key(identity),
    {
        !self.objects.is_open(identity)
    }

    /// The number of entries that hold backing object `identity`.
    pub fn ref_count(&self, identity: u64) -> (r: u64)
        requires
            self.wf(),
        ensures
            r == count_identity(self@.entries, identity),
    {
        proof {
            if !self@.objects.contains_key(identity) {
                lemma_count_bounds(self@.entries, identity);
            }
        }
        self.objects.ref_count(identity)
    }

    /// The index of an entry that overlaps `range`, if any.
    fn find_overlap(&self, range: &GuestRange) -> (r: Option<usize>)
        ensures
            r is Some ==> r->0 < self@.entries.len() && self@.entries[r->0 as int].guest_range.overlaps_spec(*range),
            r is None ==> !overlaps_any(self@.entries, *range),
    {
        let mut i: usize = 0;
        while i < self.entries.len()
            invariant
                i <= self@.entries.len(),
                forall|k: int| 0 <= k < i ==> !(#[trigger] self@.entries[k].guest_range.overlaps_spec(*range)),
            decreases self@.entries.len() - i,
        {
            if self.entries[i].guest_range.overlaps(range) {
                return Some(i);
            }
            i = i + 1;
        }
        None
    }

    /// The index of the entry whose range is exactly `range`, if any.
    fn find_exact(&self, range: &GuestRange) -> (r: Option<usize>)
        requires
            self.wf(),
            range.wf(),
        ensures
            r is Some ==> has_exact(self@.entries, *range) && r->0 == exact_index(self@.entries, *range),
            r is None ==> !has_exact(self@.entries, *range),
    {
        let mut i: usize = 0;
        while i < self.entries.len()
            invariant
                self.wf(),
                range.wf(),
                i <= self@.entries.len(),
                forall|k: int| 0 <= k < i ==> (#[trigger] self@.entries[k]).guest_range != *range,
            decreases self@.entries.len() - i,
        {
            if self.entries[i].guest_range == *range {
                proof {
                    lemma_exact_unique(self@.entries, i as int, *range);
                }
                return Some(i);
            }
            i = i + 1;
        }
        None
    }

    /// The committed entry that covers guest address `addr`; `NotMapped`
    /// when no entry does.
    pub fn lookup(&self, addr: u64) -> (r: Result<MappingEntry, MappingError>)
        requires
            self.wf(),
        ensures
            match resolve(self@.entries, addr as int) {
                Some(e) => r == Ok::<MappingEntry, MappingError>(e),
                None => r == Err::<MappingEntry, MappingError>(MappingError::NotMapped),
            },
    {
        let mut i: usize = 0;
        while i < self.entries.len()
            invariant
                self.wf(),
                i <= self@.entries.len(),
                forall|k: int| 0 <= k < i ==> !(#[trigger] self@.entries[k].guest_range.contains_spec(addr as int)),
            decreases self@.entries.len() - i,
        {
            if self.entries[i].guest_range.contains(addr) {
                proof {
                    lemma_resolve_unique(self@.entries, i as int, addr as int);
                }
                return Ok(self.entries[i]);
            }
            i = i + 1;
        }
        Err(MappingError::NotMapped)
    }

    /// Maps `range` to backing object `identity`, from `object_offset` on.
    ///
    /// `outcome` is the outcome of opening the object (`None`: the open
    /// failed); it is used only when `needs_open(identity)`, and the caller
    /// opens the object only then. Fails, changing nothing, with
    /// `OverlapConflict` when `range` meets a mapped range, and with
    /// `BackingUnavailable` when the object is neither open nor opened, or
    /// does not hold `range`'s length at `object_offset`. On success the
    /// entry is committed, the object gains a holder and the generation is
    /// bumped once.
    pub fn insert(
        &mut self,
        range: GuestRange,
        identity: u64,
        object_offset: u64,
        outcome: Option<HostMapping>,
    ) -> (r: Result<MappingEntry, MappingError>)
        requires
            old(self).wf(),
            range.wf(),
            old(self)@.generation < u64::MAX,
        ensures
            final(self).wf(),
            overlaps_any(old(self)@.entries, range) ==> {
                &&& r == Err::<MappingEntry, MappingError>(MappingError::OverlapConflict)
                &&& final(self)@ == old(self)@
            },
            !overlaps_any(old(self)@.entries, range) && !fits(
                old(self)@.objects,
                identity,
                outcome,
                object_offset,
                range,
            ) ==> {
                &&& r == Err::<MappingEntry, MappingError>(MappingError::BackingUnavailable)
                &&& final(self)@ == old(self)@
            },
            !overlaps_any(old(self)@.entries, range) && fits(
                old(self)@.objects,
                identity,
                outcome,
                object_offset,
                range,
            ) ==> {
                let mapping = backing_for(old(self)@.objects, identity, outcome)->0;
                let e = MappingEntry {
                    guest_range: range,
                    identity,
                    object_offset,
                    host_va_base: (mapping.base + object_offset) as u64,
                    generation: (old(self)@.generation + 1) as u64,
                };
                &&& r == Ok::<MappingEntry, MappingError>(e)
                &&& final(self)@.entries == old(self)@.entries.push(e)
                &&& final(self)@.objects == taken(old(self)@.objects, identity, mapping)
                &&& final(self)@.generation == old(self)@.generation + 1
            },
    {
        if self.find_overlap(&range).is_some() {
            return Err(MappingError::OverlapConflict);
        }
        let cached = self.objects.get(identity);
        let mapping = match cached {
            Some(handle) => handle.mapping,
            None => match outcome {
                Some(m) => {
                    if m.len > u64::MAX - m.base {
                        return Err(MappingError::BackingUnavailable);
                    }
                    m
                },
                None => {
                    return Err(MappingError::BackingUnavailable);
                },
            },
        };
        let len = range.len();
        if object_offset > mapping.len || len > mapping.len - object_offset {
            return Err(MappingError::BackingUnavailable);
        }
        let generation = self.generation + 1;
        let entry = MappingEntry {
            guest_range: range,
            identity,
            object_offset,
            host_va_base: mapping.base + object_offset,
            generation,
        };
        let ghost before = self@;
        self.entries.push(entry);
        // The table's length bounds every reference count.
        let table_len = self.entries.len();
        proof {
            lemma_count_bounds(before.entries, identity);
            assert(table_len == before.entries.len() + 1);
        }
        match cached {
            Some(_) => {
                let _ = self.objects.acquire(identity);
            },
            None => {
                let _ = self.objects.acquire_opened(identity, Some(mapping));
            },
        }
        self.generation = generation;
        proof {
            let after = self@;
            assert(after.objects == taken(before.objects, identity, mapping));
            assert forall|x: u64| #[trigger] after.objects.contains_key(x) implies after.objects[x].refs
                == count_identity(after.entries, x) by {
                lemma_count_push(before.entries, entry, x);
            }
            assert forall|i: int| 0 <= i < after.entries.len() implies {
                let e = #[trigger] after.entries[i];
                &&& e.wf()
                &&& after.objects.contains_key(e.identity)
                &&& e.host_va_base == after.objects[e.identity].mapping.base + e.object_offset
                &&& after.objects[e.identity].mapping.covers(
                    e.object_offset as int,
                    e.guest_range.len_spec(),
                )
            } by {
                if i < before.entries.len() {
                    assert(after.entries[i] == before.entries[i]);
                }
            }
            assert forall|i: int, j: int|
                0 <= i < after.entries.len() && 0 <= j < after.entries.len() && i != j implies !(
            #[trigger] after.entries[i].guest_range.overlaps_spec(
                #[trigger] after.entries[j].guest_range,
            )) by {
                if i == before.entries.len() {
                    assert(!before.entries[j].guest_range.overlaps_spec(range));
                } else if j == before.entries.len() {
                    assert(!before.entries[i].guest_range.overlaps_spec(range));
                } else {
                    assert(after.entries[i] == before.entries[i]);
                    assert(after.entries[j] == before.entries[j]);
                }
            }
        }
        Ok(entry)
    }

    /// Removes the entry whose range is exactly `range` and drops its hold
    /// on the backing object. Returns the host mapping that the caller must
    /// now unmap when that was the object's last holder. Fails with
    /// `NotMapped`, changing nothing, when no entry is exactly `range`.
    pub fn remove(&mut self, range: GuestRange) -> (r: Result<Option<HostMapping>, MappingError>)
        requires
            old(self).wf(),
            old(self)@.generation < u64::MAX,
        ensures
            final(self).wf(),
            !has_exact(old(self)@.entries, range) ==> {
                &&& r == Err::<Option<HostMapping>, MappingError>(MappingError::NotMapped)
                &&& final(self)@ == old(self)@
            },
            has_exact(old(self)@.entries, range) ==> {
                let i = exact_index(old(self)@.entries, range);
                let id = old(self)@.entries[i].identity;
                &&& final(self)@.entries == old(self)@.entries.remove(i)
                &&& final(self)@.objects == released(old(self)@.objects, id)
                &&& final(self)@.generation == old(self)@.generation + 1
                &&& r == Ok::<Option<HostMapping>, MappingError>(
                    if old(self)@.objects[id].refs == 1 {
                        Some(old(self)@.objects[id].mapping)
                    } else {
                        None
                    },
                )
            },
    {
        if range.start >= range.end {
            proof {
                if has_exact(self@.entries, range) {
                    let k = exact_index(self@.entries, range);
                    assert(self@.entries[k].wf());
                }
            }
            return Err(MappingError::NotMapped);
        }
        let found = self.find_exact(&range);
        match found {
            None => Err(MappingError::NotMapped),
            Some(i) => {
                let ghost before = self@;
                let entry = self.entries.remove(i);
                let unmap = self.objects.release(entry.identity);
                self.generation = self.generation + 1;
                proof {
                    lemma_removed_wf(before, self@, i as int);
                }
                unmap
            },
        }
    }

    /// Reassigns the range that is exactly `range` to backing object
    /// `identity` from `object_offset` on, in one step: the generation is
    /// bumped once and no state in between can be observed. `outcome` plays
    /// the part it plays in `insert`. Fails, changing nothing, with
    /// `NotMapped` when no entry is exactly `range`, and then with
    /// `BackingUnavailable` as `insert` does. On success returns the new
    /// entry and, when the previous object lost its last holder, its host
    /// mapping for the caller to unmap.
    pub fn replace(
        &mut self,
        range: GuestRange,
        identity: u64,
        object_offset: u64,
        outcome: Option<HostMapping>,
    ) -> (r: Result<(MappingEntry, Option<HostMapping>), MappingError>)
        requires
            old(self).wf(),
            old(self)@.generation < u64::MAX,
        ensures
            final(self).wf(),
            !has_exact(old(self)@.entries, range) ==> {
                &&& r == Err::<(MappingEntry, Option<HostMapping>), MappingError>(
                    MappingError::NotMapped,
                )
                &&& final(self)@ == old(self)@
            },
            has_exact(old(self)@.entries, range) && !fits(
                old(self)@.objects,
                identity,
                outcome,
                object_offset,
                range,
            ) ==> {
                &&& r == Err::<(MappingEntry, Option<HostMapping>), MappingError>(
                    MappingError::BackingUnavailable,
                )
                &&& final(self)@ == old(self)@
            },
            has_exact(old(self)@.entries, range) && fits(
                old(self)@.objects,
                identity,
                outcome,
                object_offset,
                range,
            ) ==> {
                let i = exact_index(old(self)@.entries, range);
                let old_id = old(self)@.entries[i].identity;
                let mapping = backing_for(old(self)@.objects, identity, outcome)->0;
                let e = MappingEntry {
                    guest_range: range,
                    identity,
                    object_offset,
                    host_va_base: (mapping.base + object_offset) as u64,
                    generation: (old(self)@.generation + 1) as u64,
                };
                &&& final(self)@.entries == old(self)@.entries.update(i, e)
                &&& final(self)@.objects == if old_id == identity {
                    old(self)@.objects
                } else {
                    released(taken(old(self)@.objects, identity, mapping), old_id)
                }
                &&& final(self)@.generation == old(self)@.generation + 1
                &&& r == Ok::<(MappingEntry, Option<HostMapping>), MappingError>(
                    (
                        e,
                        if old_id != identity && old(self)@.objects[old_id].refs == 1 {
                            Some(old(self)@.objects[old_id].mapping)
                        } else {
                            None
                        },
                    ),
                )
            },
    {
        if range.start >= range.end {
            proof {
                if has_exact(self@.entries, range) {
                    let k = exact_index(self@.entries, range);
                    assert(self@.entries[k].wf());
                }
            }
            return Err(MappingError::NotMapped);
        }
        let found = self.find_exact(&range);
        let i = match found {
            None => {
                return Err(MappingError::NotMapped);
            },
            Some(i) => i,
        };
        let old_identity = self.entries[i].identity;
        let cached = self.objects.get(identity);
        let mapping = match cached {
            Some(handle) => handle.mapping,
            None => match outcome {
                Some(m) => {
                    if m.len > u64::MAX - m.base {
                        return Err(MappingError::BackingUnavailable);
                    }
                    m
                },
                None => {
                    return Err(MappingError::BackingUnavailable);
                },
            },
        };
        let len = range.len();
        if object_offset > mapping.len || len > mapping.len - object_offset {
            return Err(MappingError::BackingUnavailable);
        }
        let generation = self.generation + 1;
        let entry = MappingEntry {
            guest_range: range,
            identity,
            object_offset,
            host_va_base: mapping.base + object_offset,
            generation,
        };
        // The table's length bounds every reference count.
        let table_len = self.entries.len();
        let ghost before = self@;
        self.entries[i] = entry;
        if old_identity == identity {
            self.generation = generation;
            proof {
                lemma_updated_wf(before, self@, i as int, entry);
            }
            Ok((entry, None))
        } else {
            proof {
                lemma_count_remove(before.entries, i as int, identity);
                lemma_count_bounds(before.entries.remove(i as int), identity);
                assert(table_len == before.entries.len());
            }
            match cached {
                Some(_) => {
                    let _ = self.objects.acquire(identity);
                },
                None => {
                    let _ = self.objects.acquire_opened(identity, Some(mapping));
                },
            }
            let unmap = self.objects.release(old_identity);
            self.generation = generation;
            proof {
                lemma_updated_wf(before, self@, i as int, entry);
            }
            match unmap {
                Ok(u) => Ok((entry, u)),
                Err(e) => Err(e),
            }
        }
    }

    /// A translator bound to this manager, with an empty cache.
    pub fn new_va_mapper(&self) -> (r: VaMapper)
        ensures
            r.valid_for(self@),
            r.cached().len() == 0,
    {
        VaMapper { generation: self.generation, ranges: Vec::new() }
    }
}

/// A translation fault: no committed range covers guest address `address`.
#[derive(Clone, Copy, Debug, PartialEq, Eq, Structural)]
pub struct Fault {
    pub address: u64,
}

/// A range that a translator resolved, with the host address it starts at.
#[derive(Clone, Copy, Debug, PartialEq, Eq, Structural)]
pub struct CachedRange {
    pub guest_range: GuestRange,
    pub host_va_base: u64,
}

/// How many resolved ranges a translator keeps before it starts over.
pub const VA_MAPPER_CAPACITY: usize = 16;

/// A per-processor translation cache: the ranges it resolved, all at the
/// generation it holds.
pub struct VaMapper {
    generation: u64,
    ranges: Vec<CachedRange>,
}

/// The table holds an entry for `c`'s range that starts at `c`'s host address.
pub open spec fn committed(s: Seq<MappingEntry>, c: CachedRange) -> bool {
    exists|j: int|
        0 <= j < s.len() && (#[trigger] s[j]).guest_range == c.guest_range && s[j].host_va_base
            == c.host_va_base
}

impl VaMapper {
    /// The generation at which the cached ranges were resolved.
    pub closed spec fn cached_generation(&self) -> u64 {
        self.generation
    }

    pub closed spec fn cached(&self) -> Seq<CachedRange> {
        self.ranges@
    }

    /// The cache may be used against manager state `m`: it was filled at a
    /// generation no later than `m`'s, and if at `m`'s own generation, each
    /// cached range is committed in `m`.
    pub open spec fn valid_for(&self, m: ManagerView) -> bool {
        &&& self.cached_generation() <= m.generation
        &&& self.cached_generation() == m.generation ==> forall|k: int|
            0 <= k < self.cached().len() ==> committed(m.entries, #[trigger] self.cached()[k])
    }

    /// The number of cached ranges.
    pub fn cached_len(&self) -> (r: usize)
        ensures
            r == self.cached().len(),
    {
        self.ranges.len()
    }

    /// Drops every cached range.
    pub fn invalidate(&mut self)
        ensures
            final(self).cached().len() == 0,
            final(self).cached_generation() == old(self).cached_generation(),
    {
        self.ranges.clear();
    }

    /// Translates guest address `gpa` to the host address that backs it,
    /// or a `Fault` when no committed range covers it. A cached range is
    /// used only while its generation is the manager's current one; on a
    /// miss or a stale cache the manager is asked and the answer cached.
    pub fn translate(&mut self, manager: &MappingManager, gpa: u64) -> (r: Result<u64, Fault>)
        requires
            manager.wf(),
            old(self).valid_for(manager@),
        ensures
            final(self).valid_for(manager@),
            match resolve(manager@.entries, gpa as int) {
                Some(e) => r == Ok::<u64, Fault>(e.host_va_spec(gpa as int) as u64),
                None => r == Err::<u64, Fault>(Fault { address: gpa }),
            },
    {
        let current = manager.generation();
        if self.generation != current {
            self.ranges.clear();
            self.generation = current;
        }
        let mut i: usize = 0;
        while i < self.ranges.len()
            invariant
                manager.wf(),
                self.valid_for(manager@),
                self.cached_generation() == manager@.generation,
                i <= self.cached().len(),
                forall|k: int|
                    0 <= k < i ==> !(#[trigger] self.cached()[k]).guest_range.contains_spec(
                        gpa as int,
                    ),
            decreases self.cached().len() - i,
        {
            let c = self.ranges[i];
            if c.guest_range.contains(gpa) {
                proof {
                    assert(committed(manager@.entries, self.cached()[i as int]));
                    let j = choose|j: int|
                        0 <= j < manager@.entries.len() && (#[trigger] manager@.entries[j]).guest_range
                            == c.guest_range && manager@.entries[j].host_va_base == c.host_va_base;
                    lemma_resolve_unique(manager@.entries, j, gpa as int);
                }
                return Ok(c.host_va_base + (gpa - c.guest_range.start));
            }
            i = i + 1;
        }
        match manager.lookup(gpa) {
            Ok(e) => {
                if self.ranges.len() >= VA_MAPPER_CAPACITY {
                    self.ranges.clear();
                }
                let ghost cached_before = self.cached();
                self.ranges.push(CachedRange { guest_range: e.guest_range, host_va_base: e.host_va_base });
                proof {
                    let k = choose|k: int|
                        0 <= k < manager@.entries.len() && #[trigger] manager@.entries[k].guest_range.contains_spec(
                            gpa as int,
                        );
                    assert(manager@.entries[k] == e);
                    assert forall|n: int| 0 <= n < self.cached().len() implies committed(
                        manager@.entries,
                        #[trigger] self.cached()[n],
                    ) by {
                        if n < cached_before.len() {
                            assert(self.cached()[n] == cached_before[n]);
                        }
                    }
                }
                Ok(e.host_va(gpa))
            },
            Err(_) => Err(Fault { address: gpa }),
        }
    }
}

/// Committing an entry keeps what the table resolved: addresses of the
/// new entry's range resolve to it, every other address as before. Applied
/// insert by insert, every address of an inserted range resolves to its
/// entry and an address of no inserted range resolves to nothing.
pub proof fn lemma_insert_resolves(
    before: ManagerView,
    after: ManagerView,
    e: MappingEntry,
    addr: int,
)
    requires
        manager_wf(before),
        manager_wf(after),
        after.entries == before.entries.push(e),
    ensures
        e.guest_range.contains_spec(addr) ==> resolve(after.entries, addr) == Some(e),
        !e.guest_range.contains_spec(addr) ==> resolve(after.entries, addr) == resolve(
            before.entries,
            addr,
        ),
{
    let n = before.entries.len() as int;
    if e.guest_range.contains_spec(addr) {
        assert(after.entries[n] == e);
        lemma_resolve_unique(after.entries, n, addr);
    } else if exists|k: int|
        0 <= k < before.entries.len() && #[trigger] before.entries[k].guest_range.contains_spec(
            addr,
        ) {
        let k = choose|k: int|
            0 <= k < before.entries.len() && #[trigger] before.entries[k].guest_range.contains_spec(
                addr,
            );
        lemma_resolve_unique(before.entries, k, addr);
        assert(after.entries[k] == before.entries[k]);
        lemma_resolve_unique(after.entries, k, addr);
    } else {
        assert forall|k: int| 0 <= k < after.entries.len() implies !(
        #[trigger] after.entries[k].guest_range.contains_spec(addr)) by {
            if k < n {
                assert(after.entries[k] == before.entries[k]);
            }
        }
    }
}

/// Once a range is removed (bumping the generation), a translator that
/// was valid before stays valid and no address of the removed range
/// resolves any more: translating it faults instead of yielding the old
/// host address.
pub proof fn lemma_translate_after_remove(
    v: &VaMapper,
    before: ManagerView,
    after: ManagerView,
    range: GuestRange,
    addr: int,
)
    requires
        manager_wf(before),
        v.valid_for(before),
        has_exact(before.entries, range),
        after.entries == before.entries.remove(exact_index(before.entries, range)),
        after.generation == before.generation + 1,
        range.contains_spec(addr),
    ensures
        v.valid_for(after),
        resolve(after.entries, addr) is None,
{
    let i = exact_index(before.entries, range);
    assert forall|k: int| 0 <= k < after.entries.len() implies !(
    #[trigger] after.entries[k].guest_range.contains_spec(addr)) by {
        let src = if k < i {
            k
        } else {
            k + 1
        };
        assert(after.entries[k] == before.entries[src]);
        assert(!before.entries[src].guest_range.overlaps_spec(before.entries[i].guest_range));
    }
}

/// Replacing a range moves each of its addresses straight from the old
/// backing to the new: before, the address resolves into the old object's
/// mapping; after, into the new object's; no state lies in between.
pub proof fn lemma_replace_moves_backing(
    before: ManagerView,
    after: ManagerView,
    range: GuestRange,
    e: MappingEntry,
    addr: int,
)
    requires
        manager_wf(before),
        manager_wf(after),
        has_exact(before.entries, range),
        e.guest_range == range,
        after.entries == before.entries.update(exact_index(before.entries, range), e),
        range.contains_spec(addr),
    ensures
        resolve(before.entries, addr) == Some(before.entries[exact_index(before.entries, range)]),
        before.objects[before.entries[exact_index(before.entries, range)].identity].mapping.contains_va(
            before.entries[exact_index(before.entries, range)].host_va_spec(addr),
        ),
        resolve(after.entries, addr) == Some(e),
        after.objects[e.identity].mapping.contains_va(e.host_va_spec(addr)),
{
    let i = exact_index(before.entries, range);
    lemma_resolve_unique(before.entries, i, addr);
    assert(after.entries[i] == e);
    lemma_resolve_unique(after.entries, i, addr);
    let old_e = before.entries[i];
    assert(old_e == before.entries[i]);
    assert(e == after.entries[i]);
}

} // verus!
