//! Deduplicated, reference-counted set of open backing objects.
//!
//! Opening and unmapping a backing object is host work that this module does
//! not do itself: `acquire` says whether the object still has to be opened,
//! `acquire_opened` records the outcome of that open, and `release` hands
//! back the mapping that the caller must unmap once the last holder is gone.
//! All operations take the cache by `&mut`, so acquires and releases of one
//! identity are serialized.

use vstd::prelude::*;
use crate::range::HostMapping;
use crate::range::MappingError;
use std::collections::HashMap;

verus! {

broadcast use vstd::std_specs::hash::group_hash_axioms;

/// An open backing object: where it is mapped, and how many holders share it.
#[derive(Clone, Copy, Debug, PartialEq, Eq, Structural)]
pub struct OpenObject {
    pub mapping: HostMapping,
    pub refs: u64,
}

/// A shared handle to an open backing object.
#[derive(Clone, Copy, Debug, PartialEq, Eq, Structural)]
pub struct Mappable {
    pub identity: u64,
    pub mapping: HostMapping,
}

/// The open backing objects, keyed by backing-object identity: at most one
/// open object per identity.
pub struct ObjectCache {
    objects: HashMap<u64, OpenObject>,
}

/// Every open object has at least one holder and a mapping inside the host
/// address space.
pub open spec fn objects_wf(m: Map<u64, OpenObject>) -> bool {
    forall|id: u64| #[trigger] m.contains_key(id) ==> m[id].refs >= 1 && m[id].mapping.wf()
}

/// The cache after the first holder of `id` opened it at `mapping`.
pub open spec fn opened(m: Map<u64, OpenObject>, id: u64, mapping: HostMapping) -> Map<
    u64,
    OpenObject,
> {
    m.insert(id, OpenObject { mapping, refs: 1 })
}

/// The cache after one more holder took the open object `id`.
pub open spec fn acquired(m: Map<u64, OpenObject>, id: u64) -> Map<u64, OpenObject> {
    m.insert(id, OpenObject { mapping: m[id].mapping, refs: (m[id].refs + 1) as u64 })
}

/// The cache after one holder of `id` let it go; the last one closes it.
pub open spec fn released(m: Map<u64, OpenObject>, id: u64) -> Map<u64, OpenObject> {
    if m[id].refs > 1 {
        m.insert(id, OpenObject { mapping: m[id].mapping, refs: (m[id].refs - 1) as u64 })
    } else {
        m.remove(id)
    }
}

/// `acquired` applied `n` times.
pub open spec fn acquired_times(m: Map<u64, OpenObject>, id: u64, n: nat) -> Map<
    u64,
    OpenObject,
>
    decreases n,
{
    if n == 0 {
        m
    } else {
        acquired(acquired_times(m, id, (n - 1) as nat), id)
    }
}

/// `released` applied `n` times.
pub open spec fn released_times(m: Map<u64, OpenObject>, id: u64, n: nat) -> Map<
    u64,
    OpenObject,
>
    decreases n,
{
    if n == 0 {
        m
    } else {
        released(released_times(m, id, (n - 1) as nat), id)
    }
}

impl View for ObjectCache {
    type V = Map<u64, OpenObject>;

    closed spec fn view(&self) -> Map<u64, OpenObject> {
        self.objects@
    }
}

impl ObjectCache {
    pub open spec fn wf(&self) -> bool {
        objects_wf(self@)
    }

    pub fn new() -> (r: ObjectCache)
        ensures
            r.wf(),
            r@ == Map::<u64, OpenObject>::empty(),
    {
        ObjectCache { objects: HashMap::new() }
    }

    /// Whether an object is open for `identity`.
    pub fn is_open(&self, identity: u64) -> (r: bool)
        ensures
            r == self@.contains_key(identity),
    {
        self.objects.contains_key(&identity)
    }

    /// The handle of the object open for `identity`, if any; takes no reference.
    pub fn get(&self, identity: u64) -> (r: Option<Mappable>)
        ensures
            self@.contains_key(identity) ==> r == Some(
                Mappable { identity, mapping: self@[identity].mapping },
            ),
            !self@.contains_key(identity) ==> r is None,
    {
        match self.objects.get(&identity) {
            Some(o) => Some(Mappable { identity, mapping: o.mapping }),
            None => None,
        }
    }

    /// The number of holders of `identity`; zero when it is not open.
    pub fn ref_count(&self, identity: u64) -> (r: u64)
        ensures
            self@.contains_key(identity) ==> r == self@[identity].refs,
            !self@.contains_key(identity) ==> r == 0,
    {
        match self.objects.get(&identity) {
            Some(o) => o.refs,
            None => 0,
        }
    }

    /// Takes one more reference to the object open for `identity`. Returns
    /// `None`, with the cache unchanged, when no object is open for it: the
    /// caller then opens it and hands the outcome to `acquire_opened`.
    pub fn acquire(&mut self, identity: u64) -> (r: Option<Mappable>)
        requires
            old(self).wf(),
            old(self)@.contains_key(identity) ==> old(self)@[identity].refs < u64::MAX,
        ensures
            final(self).wf(),
            old(self)@.contains_key(identity) ==> {
                &&& r == Some(Mappable { identity, mapping: old(self)@[identity].mapping })
                &&& final(self)@ == acquired(old(self)@, identity)
            },
            !old(self)@.contains_key(identity) ==> r is None && final(self)@ == old(self)@,
    {
        let found = match self.objects.get(&identity) {
            Some(o) => Some(*o),
            None => None,
        };
        match found {
            Some(o) => {
                let next = OpenObject { mapping: o.mapping, refs: o.refs + 1 };
                self.objects.insert(identity, next);
                Some(Mappable { identity, mapping: o.mapping })
            },
            None => None,
        }
    }

    /// Records the outcome of opening `identity` (`None`: the open failed).
    /// On success the object is cached with one holder; on failure the cache
    /// is left unchanged.
    pub fn acquire_opened(&mut self, identity: u64, outcome: Option<HostMapping>) -> (r: Result<
        Mappable,
        MappingError,
    >)
        requires
            old(self).wf(),
            !old(self)@.contains_key(identity),
        ensures
            final(self).wf(),
            match outcome {
                Some(mapping) if mapping.wf() => {
                    &&& r == Ok::<Mappable, MappingError>(Mappable { identity, mapping })
                    &&& final(self)@ == opened(old(self)@, identity, mapping)
                },
                _ => {
                    &&& r == Err::<Mappable, MappingError>(MappingError::BackingUnavailable)
                    &&& final(self)@ == old(self)@
                },
            },
    {
        match outcome {
            Some(mapping) => {
                if mapping.len <= u64::MAX - mapping.base {
                    self.objects.insert(identity, OpenObject { mapping, refs: 1 });
                    Ok(Mappable { identity, mapping })
                } else {
                    Err(MappingError::BackingUnavailable)
                }
            },
            None => Err(MappingError::BackingUnavailable),
        }
    }

    /// Drops one reference to `identity`. When it was the last one the
    /// object is evicted and its mapping returned, for the caller to unmap.
    /// Fails with `NotMapped`, changing nothing, when `identity` is not open.
    pub fn release(&mut self, identity: u64) -> (r: Result<Option<HostMapping>, MappingError>)
        requires
            old(self).wf(),
        ensures
            final(self).wf(),
            old(self)@.contains_key(identity) ==> {
                &&& final(self)@ == released(old(self)@, identity)
                &&& r == Ok::<Option<HostMapping>, MappingError>(
                    if old(self)@[identity].refs == 1 {
                        Some(old(self)@[identity].mapping)
                    } else {
                        None
                    },
                )
            },
            !old(self)@.contains_key(identity) ==> {
                &&& r == Err::<Option<HostMapping>, MappingError>(MappingError::NotMapped)
                &&& final(self)@ == old(self)@
            },
    {
        let found = match self.objects.get(&identity) {
            Some(o) => Some(*o),
            None => None,
        };
        match found {
            Some(o) => {
                if o.refs > 1 {
                    self.objects.insert(identity, OpenObject { mapping: o.mapping, refs: o.refs - 1 });
                    Ok(None)
                } else {
                    self.objects.remove(&identity);
                    Ok(Some(o.mapping))
                }
            },
            None => Err(MappingError::NotMapped),
        }
    }
}

proof fn lemma_acquired_times(m: Map<u64, OpenObject>, id: u64, mapping: HostMapping, j: nat)
    requires
        j + 1 <= u64::MAX,
    ensures
        acquired_times(opened(m, id, mapping), id, j) == m.insert(
            id,
            OpenObject { mapping, refs: (j + 1) as u64 },
        ),
    decreases j,
{
    if j == 0 {
        assert(acquired_times(opened(m, id, mapping), id, 0) == opened(m, id, mapping));
    } else {
        lemma_acquired_times(m, id, mapping, (j - 1) as nat);
        let prev = m.insert(id, OpenObject { mapping, refs: j as u64 });
        assert(acquired(prev, id) =~= m.insert(id, OpenObject { mapping, refs: (j + 1) as u64 }));
    }
}

proof fn lemma_released_times(m: Map<u64, OpenObject>, id: u64, mapping: HostMapping, n: nat, k: nat)
    requires
        k < n <= u64::MAX,
    ensures
        released_times(m.insert(id, OpenObject { mapping, refs: n as u64 }), id, k) == m.insert(
            id,
            OpenObject { mapping, refs: (n - k) as u64 },
        ),
    decreases k,
{
    let full = m.insert(id, OpenObject { mapping, refs: n as u64 });
    if k == 0 {
        assert(released_times(full, id, 0) == full);
    } else {
        lemma_released_times(m, id, mapping, n, (k - 1) as nat);
        let prev = m.insert(id, OpenObject { mapping, refs: (n - k + 1) as u64 });
        assert(released(prev, id) =~= m.insert(id, OpenObject { mapping, refs: (n - k) as u64 }));
    }
}

/// When `n` holders take the same identity, the object is opened once (by
/// the first) and every later acquire finds it open; it stays open through
/// the first `n - 1` releases and is closed by the `n`-th, which leaves the
/// cache as it was before the first acquire.
pub proof fn lemma_shared_object_lifecycle(
    m: Map<u64, OpenObject>,
    id: u64,
    mapping: HostMapping,
    n: nat,
)
    requires
        !m.contains_key(id),
        1 <= n <= u64::MAX,
    ensures
        forall|j: nat| #![auto]
            j < n ==> acquired_times(opened(m, id, mapping), id, j).contains_key(id),
        acquired_times(opened(m, id, mapping), id, (n - 1) as nat)[id] == (OpenObject {
            mapping,
            refs: n as u64,
        }),
        forall|k: nat|
            k < n ==> {
                &&& (#[trigger] released_times(
                    acquired_times(opened(m, id, mapping), id, (n - 1) as nat),
                    id,
                    k,
                )).contains_key(id)
                &&& released_times(
                    acquired_times(opened(m, id, mapping), id, (n - 1) as nat),
                    id,
                    k,
                )[id].mapping == mapping
                &&& (released_times(
                    acquired_times(opened(m, id, mapping), id, (n - 1) as nat),
                    id,
                    k,
                )[id].refs == 1 <==> k == n - 1)
            },
        released_times(acquired_times(opened(m, id, mapping), id, (n - 1) as nat), id, n) == m,
{
    assert forall|j: nat| #![auto] j < n implies acquired_times(
        opened(m, id, mapping),
        id,
        j,
    ).contains_key(id) by {
        lemma_acquired_times(m, id, mapping, j);
    }
    lemma_acquired_times(m, id, mapping, (n - 1) as nat);
    let full = m.insert(id, OpenObject { mapping, refs: n as u64 });
    assert forall|k: nat| k < n implies {
        &&& (#[trigger] released_times(full, id, k)).contains_key(id)
        &&& released_times(full, id, k)[id].mapping == mapping
        &&& (released_times(full, id, k)[id].refs == 1 <==> k == n - 1)
    } by {
        lemma_released_times(m, id, mapping, n, k);
    }
    lemma_released_times(m, id, mapping, n, (n - 1) as nat);
    let last = m.insert(id, OpenObject { mapping, refs: 1 });
    assert(released(last, id) =~= m);
}

} // verus!
