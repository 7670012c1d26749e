use ic_stable_structures::{DefaultMemoryImpl, Memory};
use icp_blog::store::{cell_header_ok, ids_below, manager_header_ok, map_header_ok, PostStore};
use icp_blog::DurableMemory;

fn memory_starting_with(bytes: &[u8]) -> DefaultMemoryImpl {
    let memory = DefaultMemoryImpl::default();
    assert_eq!(memory.grow(1), 0);
    memory.write(0, bytes);
    memory
}

#[test]
fn foreign_manager_version_is_refused_not_panicked() {
    let memory = memory_starting_with(b"MGR\x02");
    assert!(PostStore::restore(DurableMemory { memory: memory.clone() }).is_none());
    assert!(PostStore::new(DurableMemory { memory }).is_none());
}

#[test]
fn memory_without_manager_is_laid_out_anew() {
    let memory = memory_starting_with(b"XYZ\x07");
    let mut store = PostStore::restore(DurableMemory { memory }).unwrap();
    assert_eq!(store.generate_unique_id(), Some(0));
}

#[test]
fn manager_header_rules() {
    assert!(manager_header_ok(b"MGR\x01"));
    assert!(!manager_header_ok(b"MGR\x02"));
    assert!(manager_header_ok(b"ABC\x02"));
}

#[test]
fn cell_header_rules() {
    assert!(cell_header_ok(&[b'S', b'C', b'L', 1, 8, 0, 0, 0]));
    assert!(!cell_header_ok(&[b'S', b'C', b'L', 1, 4, 0, 0, 0]));
    assert!(!cell_header_ok(&[b'S', b'C', b'L', 1, 8, 0, 0, 1]));
    assert!(cell_header_ok(&[b'S', b'C', b'L', 2, 4, 0, 0, 0]));
    assert!(cell_header_ok(&[0, 0, 0, 0, 0, 0, 0, 0]));
}

#[test]
fn map_header_rules() {
    let mut h = vec![0u8; 56];
    assert!(map_header_ok(&h));
    h[0..4].copy_from_slice(b"BTR\x02");
    assert!(!map_header_ok(&h));
    h[52..56].copy_from_slice(b"BTA\x01");
    assert!(map_header_ok(&h));
    h[3] = 1;
    assert!(!map_header_ok(&h));
    h[3] = 2;
    h[55] = 2;
    assert!(!map_header_ok(&h));
}

#[test]
fn ids_below_rules() {
    assert!(ids_below(None, 0));
    assert!(ids_below(Some(4), 5));
    assert!(!ids_below(Some(5), 5));
}
