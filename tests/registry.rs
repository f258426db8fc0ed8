use modular_mc::chunk::Chunk;
use modular_mc::registry::Chunks;

#[test]
fn insert_if_absent_keeps_first() {
    let mut chunks = Chunks::new();
    assert_eq!(chunks.len(), 0);
    assert!(!chunks.contains([0, 0]));
    assert!(chunks.insert_if_absent([0, 0], Chunk::from_palette(&vec![1, 2, 3])));
    assert!(!chunks.insert_if_absent([0, 0], Chunk::new_empty()));
    assert_eq!(chunks.palette_size_at([0, 0]), Some(3));
    assert_eq!(chunks.len(), 1);
    assert!(chunks.insert_if_absent([1, -1], Chunk::new_empty()));
    assert_eq!(chunks.len(), 2);
    assert_eq!(chunks.palette_size_at([1, -1]), Some(0));
    assert_eq!(chunks.palette_size_at([5, 5]), None);
}

#[test]
fn ensure_chunk_creates_empty_once() {
    let mut chunks = Chunks::new();
    assert!(chunks.ensure_chunk([0, 0]));
    assert!(!chunks.ensure_chunk([0, 0]));
    assert!(chunks.contains([0, 0]));
    assert_eq!(chunks.palette_size_at([0, 0]), Some(0));
    assert_eq!(chunks.len(), 1);
}
