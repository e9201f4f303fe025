use membacking::Fault;
use membacking::GuestRange;
use membacking::HostMapping;
use membacking::MappingError;
use membacking::MappingManager;

const A: u64 = 1;
const B: u64 = 2;
const A_BASE: u64 = 0x7f00_0000_0000;
const B_BASE: u64 = 0x7e00_0000_0000;

fn a_mapping() -> HostMapping {
    HostMapping { base: A_BASE, len: 0x4000 }
}

fn b_mapping() -> HostMapping {
    HostMapping { base: B_BASE, len: 0x2000 }
}

fn range(start: u64, end: u64) -> GuestRange {
    GuestRange::new(start, end).unwrap()
}

/// Inserts with `identity`, opening it at `mapping` only when needed.
fn insert(
    m: &mut MappingManager,
    r: GuestRange,
    identity: u64,
    offset: u64,
    mapping: HostMapping,
) -> Result<membacking::MappingEntry, MappingError> {
    let outcome = if m.needs_open(identity) { Some(mapping) } else { None };
    m.insert(r, identity, offset, outcome)
}

#[test]
fn adjacent_overlapping_and_removed_ranges() {
    let mut m = MappingManager::new();
    let e = insert(&mut m, range(0x1000, 0x2000), A, 0, a_mapping()).unwrap();
    assert_eq!(e.host_va_base, A_BASE);
    let found = m.lookup(0x1500).unwrap();
    assert_eq!(found.host_va(0x1500), A_BASE + 0x500);

    insert(&mut m, range(0x2000, 0x3000), A, 0x1000, a_mapping()).unwrap();
    let found = m.lookup(0x2000).unwrap();
    assert_eq!(found.host_va(0x2000), A_BASE + 0x1000);

    assert_eq!(
        insert(&mut m, range(0x1800, 0x2800), A, 0, a_mapping()),
        Err(MappingError::OverlapConflict)
    );

    assert_eq!(m.remove(range(0x1000, 0x2000)), Ok(None));
    assert_eq!(m.lookup(0x1500), Err(MappingError::NotMapped));
    let found = m.lookup(0x2500).unwrap();
    assert_eq!(found.host_va(0x2500), A_BASE + 0x1500);
}

#[test]
fn lookup_outside_every_range_is_not_mapped() {
    let mut m = MappingManager::new();
    assert_eq!(m.lookup(0), Err(MappingError::NotMapped));
    insert(&mut m, range(0x1000, 0x2000), A, 0, a_mapping()).unwrap();
    insert(&mut m, range(0x3000, 0x4000), B, 0, b_mapping()).unwrap();
    assert_eq!(m.lookup(0x0fff), Err(MappingError::NotMapped));
    assert_eq!(m.lookup(0x2000), Err(MappingError::NotMapped));
    assert_eq!(m.lookup(0x2fff), Err(MappingError::NotMapped));
    assert_eq!(m.lookup(0x4000), Err(MappingError::NotMapped));
    assert_eq!(m.lookup(0x1fff).unwrap().identity, A);
    assert_eq!(m.lookup(0x3000).unwrap().identity, B);
    assert_eq!(m.lookup(0x3fff).unwrap().host_va(0x3fff), B_BASE + 0xfff);
}

#[test]
fn overlapping_insert_leaves_table_unchanged() {
    let mut m = MappingManager::new();
    insert(&mut m, range(0x1000, 0x2000), A, 0, a_mapping()).unwrap();
    let entries = m.entries();
    let generation = m.generation();
    for (s, e) in [(0x1000, 0x2000), (0x0, 0x1001), (0x1fff, 0x3000), (0x1200, 0x1300), (0x0, 0x9000)] {
        assert_eq!(
            m.insert(range(s, e), B, 0, Some(b_mapping())),
            Err(MappingError::OverlapConflict)
        );
        assert_eq!(m.entries(), entries);
        assert_eq!(m.generation(), generation);
        assert!(m.needs_open(B));
        assert_eq!(m.ref_count(A), 1);
    }
}

#[test]
fn removing_an_unmapped_range_fails_and_changes_nothing() {
    let mut m = MappingManager::new();
    assert_eq!(m.remove(range(0x1000, 0x2000)), Err(MappingError::NotMapped));
    insert(&mut m, range(0x1000, 0x2000), A, 0, a_mapping()).unwrap();
    let entries = m.entries();
    let generation = m.generation();
    assert_eq!(m.remove(range(0x1000, 0x1800)), Err(MappingError::NotMapped));
    assert_eq!(m.remove(range(0x800, 0x2000)), Err(MappingError::NotMapped));
    assert_eq!(m.remove(GuestRange { start: 0x2000, end: 0x1000 }), Err(MappingError::NotMapped));
    assert_eq!(m.entries(), entries);
    assert_eq!(m.generation(), generation);
    assert_eq!(m.ref_count(A), 1);
}

#[test]
fn translation_faults_after_its_range_is_removed() {
    let mut m = MappingManager::new();
    insert(&mut m, range(0x1000, 0x2000), A, 0, a_mapping()).unwrap();
    insert(&mut m, range(0x2000, 0x3000), B, 0, b_mapping()).unwrap();
    let mut vp = m.new_va_mapper();
    assert_eq!(vp.translate(&m, 0x1500), Ok(A_BASE + 0x500));
    assert_eq!(vp.cached_len(), 1);
    // A second translation in the same range is served from the cache.
    assert_eq!(vp.translate(&m, 0x1ff0), Ok(A_BASE + 0xff0));
    assert_eq!(vp.cached_len(), 1);

    assert_eq!(m.remove(range(0x1000, 0x2000)), Ok(Some(a_mapping())));
    assert_eq!(vp.translate(&m, 0x1500), Err(Fault { address: 0x1500 }));
    assert_eq!(vp.translate(&m, 0x1000), Err(Fault { address: 0x1000 }));
    assert_eq!(vp.translate(&m, 0x2800), Ok(B_BASE + 0x800));
}

#[test]
fn translation_resolves_against_what_superseded_a_range() {
    let mut m = MappingManager::new();
    insert(&mut m, range(0x1000, 0x2000), A, 0, a_mapping()).unwrap();
    let mut vp = m.new_va_mapper();
    assert_eq!(vp.translate(&m, 0x1500), Ok(A_BASE + 0x500));
    m.remove(range(0x1000, 0x2000)).unwrap();
    insert(&mut m, range(0x1000, 0x2000), B, 0x1000, b_mapping()).unwrap();
    assert_eq!(vp.translate(&m, 0x1500), Ok(B_BASE + 0x1500));
}

#[test]
fn replace_switches_backing_in_one_step() {
    let mut m = MappingManager::new();
    insert(&mut m, range(0x1000, 0x2000), A, 0x2000, a_mapping()).unwrap();
    let mut vp = m.new_va_mapper();
    let before = vp.translate(&m, 0x1500).unwrap();
    assert_eq!(before, A_BASE + 0x2500);
    assert!(before >= A_BASE && before < A_BASE + 0x4000);

    let generation = m.generation();
    let opened = if m.needs_open(B) { Some(b_mapping()) } else { None };
    let (e, unmap) = m.replace(range(0x1000, 0x2000), B, 0x800, opened).unwrap();
    assert_eq!(m.generation(), generation + 1);
    assert_eq!(e.identity, B);
    assert_eq!(e.host_va_base, B_BASE + 0x800);
    assert_eq!(unmap, Some(a_mapping()));
    assert!(m.needs_open(A));
    assert_eq!(m.ref_count(B), 1);

    let after = vp.translate(&m, 0x1500).unwrap();
    assert_eq!(after, B_BASE + 0xd00);
    assert!(after >= B_BASE && after < B_BASE + 0x2000);
    assert_eq!(m.lookup(0x1500).unwrap(), e);
}

#[test]
fn replace_keeps_a_shared_object_open() {
    let mut m = MappingManager::new();
    insert(&mut m, range(0x1000, 0x2000), A, 0, a_mapping()).unwrap();
    insert(&mut m, range(0x2000, 0x3000), A, 0x1000, a_mapping()).unwrap();
    assert_eq!(m.ref_count(A), 2);
    let (_, unmap) = m.replace(range(0x1000, 0x2000), B, 0, Some(b_mapping())).unwrap();
    assert_eq!(unmap, None);
    assert_eq!(m.ref_count(A), 1);
    assert_eq!(m.ref_count(B), 1);
    // Same object, another offset: no holder moves.
    let (e, unmap) = m.replace(range(0x2000, 0x3000), A, 0x3000, None).unwrap();
    assert_eq!(unmap, None);
    assert_eq!(e.host_va_base, A_BASE + 0x3000);
    assert_eq!(m.ref_count(A), 1);
}

#[test]
fn replace_failures_change_nothing() {
    let mut m = MappingManager::new();
    insert(&mut m, range(0x1000, 0x2000), A, 0, a_mapping()).unwrap();
    let entries = m.entries();
    let generation = m.generation();
    assert_eq!(
        m.replace(range(0x1000, 0x1800), B, 0, Some(b_mapping())),
        Err(MappingError::NotMapped)
    );
    assert_eq!(m.replace(range(0x1000, 0x2000), B, 0, None), Err(MappingError::BackingUnavailable));
    assert_eq!(
        m.replace(range(0x1000, 0x2000), B, 0x1800, Some(b_mapping())),
        Err(MappingError::BackingUnavailable)
    );
    assert_eq!(m.entries(), entries);
    assert_eq!(m.generation(), generation);
    assert!(m.needs_open(B));
}

#[test]
fn insert_reports_unavailable_backing() {
    let mut m = MappingManager::new();
    // The open failed.
    assert_eq!(m.insert(range(0x1000, 0x2000), A, 0, None), Err(MappingError::BackingUnavailable));
    // The object is too short for the range at that offset.
    assert_eq!(
        m.insert(range(0x1000, 0x2000), A, 0x3001, Some(a_mapping())),
        Err(MappingError::BackingUnavailable)
    );
    // The mapping runs past the end of the address space.
    assert_eq!(
        m.insert(range(0x1000, 0x2000), A, 0, Some(HostMapping { base: u64::MAX - 0xfff, len: 0x2000 })),
        Err(MappingError::BackingUnavailable)
    );
    assert_eq!(m.entries(), Vec::new());
    assert_eq!(m.generation(), 0);
    assert!(m.needs_open(A));
    // The range fills the object exactly.
    let e = m.insert(range(0x1000, 0x2000), A, 0x3000, Some(a_mapping())).unwrap();
    assert_eq!(e.host_va_base, A_BASE + 0x3000);
    assert_eq!(e.generation, 1);
}

#[test]
fn every_change_bumps_the_generation_once() {
    let mut m = MappingManager::new();
    assert_eq!(m.generation(), 0);
    insert(&mut m, range(0x1000, 0x2000), A, 0, a_mapping()).unwrap();
    assert_eq!(m.generation(), 1);
    m.replace(range(0x1000, 0x2000), B, 0, Some(b_mapping())).unwrap();
    assert_eq!(m.generation(), 2);
    m.remove(range(0x1000, 0x2000)).unwrap();
    assert_eq!(m.generation(), 3);
}

#[test]
fn mapper_cache_starts_over_when_full() {
    let mut m = MappingManager::new();
    let mut opened = Some(HostMapping { base: A_BASE, len: 0x100_0000 });
    for k in 0..20u64 {
        let r = range(0x1000 * (k + 1), 0x1000 * (k + 2));
        m.insert(r, A, 0x1000 * k, opened.take()).unwrap();
    }
    assert_eq!(m.ref_count(A), 20);
    let mut vp = m.new_va_mapper();
    for k in 0..20u64 {
        let gpa = 0x1000 * (k + 1) + 0x10;
        assert_eq!(vp.translate(&m, gpa), Ok(A_BASE + 0x1000 * k + 0x10));
        assert!(vp.cached_len() <= 16);
    }
    vp.invalidate();
    assert_eq!(vp.cached_len(), 0);
    assert_eq!(vp.translate(&m, 0x1010), Ok(A_BASE + 0x10));
}

#[test]
fn guest_range_rejects_degenerate_bounds() {
    assert_eq!(GuestRange::new(5, 5), None);
    assert_eq!(GuestRange::new(6, 5), None);
    let r = GuestRange::new(5, 9).unwrap();
    assert_eq!(r.len(), 4);
    assert!(r.contains(5) && r.contains(8) && !r.contains(9) && !r.contains(4));
    assert!(r.overlaps(&range(8, 20)));
    assert!(!r.overlaps(&range(9, 20)));
    assert!(!r.overlaps(&range(0, 5)));
}
