use modular_mc::chunk::{BlockID, BlockPosInChunk, Chunk, ChunkError};
use modular_mc::guard::MutationGuard;

fn chunk_bytes(palette: &[u64], bits: usize) -> Vec<u8> {
    let mut buffer = Vec::new();
    for v in palette {
        buffer.extend_from_slice(&v.to_le_bytes());
    }
    buffer.extend(std::iter::repeat(0u8).take(512 * bits));
    buffer
}

#[test]
fn bits_per_block_of_palette_sizes() {
    let cases: [(usize, u32); 12] = [
        (0, 0),
        (1, 0),
        (2, 1),
        (3, 2),
        (10, 4),
        (16, 4),
        (17, 5),
        (256, 8),
        (257, 9),
        (65535, 16),
        (65536, 16),
        (4294967295, 32),
    ];
    for (size, bits) in cases {
        assert_eq!(Chunk::bits_for(size), bits, "palette size {}", size);
    }
}

#[test]
fn bits_per_block_of_chunk() {
    let chunk = Chunk::from_parts(16, chunk_bytes(&[7; 16], 4)).unwrap();
    assert_eq!(chunk.bits_per_block(), 4);
    assert_eq!(Chunk::new_empty().bits_per_block(), 0);
}

#[test]
fn palette_round_trip() {
    let palette = [1234567u64, 694201337, 99999];
    let chunk = Chunk::from_parts(3, chunk_bytes(&palette, 2)).unwrap();
    assert_eq!(chunk.block_palette(), vec![1234567, 694201337, 99999]);
}

#[test]
fn two_entry_palette_scenario() {
    let buffer = chunk_bytes(&[0, u64::MAX], 1);
    assert_eq!(buffer.len(), 16 + 512);
    let chunk = Chunk::from_parts(2, buffer).unwrap();
    assert_eq!(chunk.block_palette(), vec![0, u64::MAX]);
    let r = chunk.block_at(0, 0, 0);
    assert_eq!(r.slot, 0);
    assert_eq!(r.bit_offset, 0);
    assert_eq!(r.byte_start, 16);
    assert_eq!(r.byte_end, 17);
    assert_eq!(r.first_bit, 0);
    assert_eq!(r.last_bit, 0);
    assert_eq!(chunk.block_index(&r), 0);
    assert_eq!(chunk.block_id(BlockPosInChunk([0, 0, 0])), Some(BlockID(0)));
}

#[test]
fn empty_chunk() {
    let chunk = Chunk::new_empty();
    assert_eq!(chunk.palette_size(), 0);
    assert_eq!(chunk.buffer_len(), 0);
    assert!(chunk.block_palette().is_empty());
}

#[test]
fn short_buffer_is_rejected() {
    let buffer = vec![0u8; 16 + 511];
    match Chunk::from_parts(2, buffer) {
        Err(ChunkError::BufferTooShort { required, actual }) => {
            assert_eq!(required, 528);
            assert_eq!(actual, 527);
        }
        Ok(_) => panic!("a short buffer was accepted"),
    }
    assert!(Chunk::from_parts(1, vec![0u8; 7]).is_err());
    assert!(Chunk::from_parts(1, vec![0u8; 8]).is_ok());
}

#[test]
fn block_at_is_a_bijection() {
    for palette_size in [0usize, 1, 2, 3, 16, 17] {
        let bits = Chunk::bits_for(palette_size) as usize;
        let chunk = Chunk::from_parts(palette_size, chunk_bytes(&vec![5; palette_size], bits)).unwrap();
        let mut seen = vec![false; 4096];
        for x in 0..16u8 {
            for y in 0..16u8 {
                for z in 0..16u8 {
                    let r = chunk.block_at(x, y, z);
                    let slot = x as usize + 16 * z as usize + 256 * y as usize;
                    assert_eq!(r.slot, slot);
                    assert!(!seen[slot]);
                    seen[slot] = true;
                    assert_eq!(r.bit_offset, bits * slot);
                    assert_eq!(r.byte_start, 8 * palette_size + bits * slot / 8);
                    assert!(r.byte_end <= chunk.buffer_len());
                }
            }
        }
        assert!(seen.iter().all(|s| *s));
    }
}

#[test]
fn block_at_straddles_bytes() {
    let chunk = Chunk::from_parts(3, chunk_bytes(&[1, 2, 3], 2)).unwrap();
    let r = chunk.block_at(3, 0, 0);
    assert_eq!((r.byte_start, r.byte_end, r.first_bit, r.last_bit), (24, 25, 6, 7));
    let chunk = Chunk::from_parts(17, chunk_bytes(&[0; 17], 5)).unwrap();
    let r = chunk.block_at(1, 0, 0);
    assert_eq!((r.bit_offset, r.byte_start, r.byte_end, r.first_bit, r.last_bit), (5, 136, 138, 5, 1));
}

#[test]
fn write_under_claim_touches_only_its_block() {
    let mut chunk = Chunk::from_parts(17, chunk_bytes(&[0; 17], 5)).unwrap();
    let mut guard = MutationGuard::new(chunk.buffer_len());
    let r = chunk.block_at(1, 0, 0);
    assert!(guard.try_claim(r.byte_start, r.byte_end));
    chunk.set_block_index(&guard, &r, 16);
    guard.release(r.byte_start, r.byte_end);
    assert_eq!(chunk.block_index(&r), 16);
    let left = chunk.block_at(0, 0, 0);
    let right = chunk.block_at(2, 0, 0);
    assert_eq!(chunk.block_index(&left), 0);
    assert_eq!(chunk.block_index(&right), 0);
    assert_eq!(chunk.block_palette(), vec![0; 17]);
}

#[test]
fn block_id_reads_palette() {
    let mut chunk = Chunk::from_parts(3, chunk_bytes(&[10, 20, 30], 2)).unwrap();
    let guard_len = chunk.buffer_len();
    let mut guard = MutationGuard::new(guard_len);
    let r = chunk.block_at(4, 5, 6);
    assert!(guard.try_claim(r.byte_start, r.byte_end));
    chunk.set_block_index(&guard, &r, 2);
    guard.release(r.byte_start, r.byte_end);
    assert_eq!(chunk.block_id(BlockPosInChunk([4, 5, 6])), Some(BlockID(30)));
    assert_eq!(chunk.block_id(BlockPosInChunk([4, 5, 7])), Some(BlockID(10)));
}

#[test]
fn out_of_palette_index_has_no_id() {
    let mut buffer = chunk_bytes(&[10, 20, 30], 2);
    buffer[24] = 0b11;
    let chunk = Chunk::from_parts(3, buffer).unwrap();
    let r = chunk.block_at(0, 0, 0);
    assert_eq!(chunk.block_index(&r), 3);
    assert_eq!(chunk.block_id(BlockPosInChunk([0, 0, 0])), None);
}

#[test]
fn from_palette_round_trip() {
    let palette = vec![1234567u64, 694201337, 99999];
    let chunk = Chunk::from_palette(&palette);
    assert_eq!(chunk.palette_size(), 3);
    assert_eq!(chunk.buffer_len(), 24 + 1024);
    assert_eq!(chunk.block_palette(), palette);
    let r = chunk.block_at(15, 15, 15);
    assert_eq!(chunk.block_index(&r), 0);
    assert_eq!(chunk.block_id(BlockPosInChunk([15, 15, 15])), Some(BlockID(1234567)));
}

#[test]
fn from_palette_matches_le_layout() {
    let chunk = Chunk::from_palette(&vec![0x0102030405060708]);
    assert_eq!(chunk.buffer_len(), 8);
    let parts = Chunk::from_parts(1, vec![8, 7, 6, 5, 4, 3, 2, 1]).unwrap();
    assert_eq!(parts.block_palette(), chunk.block_palette());
    assert_eq!(Chunk::from_palette(&vec![]).buffer_len(), 0);
}
