//! The registry of loaded chunks, keyed by the chunk's `[x, z]` coordinate,
//! held in a concurrent hash map.

use vstd::prelude::*;
use dashmap::DashMap;
use crate::chunk::Chunk;

verus! {

#[verifier::external_type_specification]
#[verifier::external_body]
#[verifier::reject_recursive_types(K)]
#[verifier::reject_recursive_types(V)]
#[verifier::reject_recursive_types(S)]
pub struct ExDashMap<K, V, S>(DashMap<K, V, S>);

/// The `[x, z]` coordinate of a chunk.
pub type ChunkPos = [i32; 2];

/// The entries of a chunk map.
pub uninterp spec fn registry_contents(m: DashMap<ChunkPos, Chunk>) -> Map<ChunkPos, Chunk>;

/// Relies on `DashMap::new`: a new map has no entry.
#[verifier::external_body]
fn map_new() -> (r: DashMap<ChunkPos, Chunk>)
    ensures
        registry_contents(r).dom() == Set::<ChunkPos>::empty(),
{
    DashMap::new()
}

/// Relies on `DashMap::contains_key`: whether the key has an entry.
#[verifier::external_body]
fn map_contains(m: &DashMap<ChunkPos, Chunk>, xz: &ChunkPos) -> (r: bool)
    ensures
        r == registry_contents(*m).contains_key(*xz),
{
    m.contains_key(xz)
}

/// Relies on `DashMap::insert`: afterwards the key maps to the value, and
/// every other entry is kept.
#[verifier::external_body]
fn map_insert(m: &mut DashMap<ChunkPos, Chunk>, xz: ChunkPos, chunk: Chunk)
    ensures
        registry_contents(*final(m)) == registry_contents(*old(m)).insert(xz, chunk),
{
    m.insert(xz, chunk);
}

/// Relies on `DashMap::len`: the number of entries.
#[verifier::external_body]
fn map_len(m: &DashMap<ChunkPos, Chunk>) -> (r: usize)
    ensures
        r == registry_contents(*m).len(),
{
    m.len()
}

/// Relies on `DashMap::get`: the entry of the key, if any; of the entry only
/// its palette size is handed out.
#[verifier::external_body]
fn map_palette_size(m: &DashMap<ChunkPos, Chunk>, xz: &ChunkPos) -> (r: Option<usize>)
    ensures
        match r {
            Some(n) => registry_contents(*m).contains_key(*xz) && n == registry_contents(
                *m,
            )[*xz].spec_palette_size(),
            None => !registry_contents(*m).contains_key(*xz),
        },
{
    m.get(xz).map(|c| c.palette_size())
}

/// The loaded chunks, by `[x, z]`.
pub struct Chunks(pub DashMap<ChunkPos, Chunk>);

impl Default for Chunks {
    /// A registry with no chunk.
    fn default() -> (r: Chunks)
        ensures
            r.contents() == Map::<ChunkPos, Chunk>::empty(),
    {
        Chunks::new()
    }
}

impl Chunks {
    /// The chunks held, by coordinate.
    pub open spec fn contents(&self) -> Map<ChunkPos, Chunk> {
        registry_contents(self.0)
    }

    /// A registry with no chunk.
    pub fn new() -> (r: Chunks)
        ensures
            r.contents() == Map::<ChunkPos, Chunk>::empty(),
    {
        let r = Chunks(map_new());
        assert(r.contents() =~= Map::<ChunkPos, Chunk>::empty());
        r
    }

    /// Whether a chunk is held at `xz`.
    pub fn contains(&self, xz: ChunkPos) -> (r: bool)
        ensures
            r == self.contents().contains_key(xz),
    {
        map_contains(&self.0, &xz)
    }

    /// The number of chunks held.
    pub fn len(&self) -> (r: usize)
        ensures
            r == self.contents().len(),
    {
        map_len(&self.0)
    }

    /// The palette size of the chunk at `xz`, if one is held.
    pub fn palette_size_at(&self, xz: ChunkPos) -> (r: Option<usize>)
        ensures
            r matches Some(n) ==> self.contents().contains_key(xz) && n == self.contents()[xz].spec_palette_size(),
            r is None <==> !self.contents().contains_key(xz),
    {
        map_palette_size(&self.0, &xz)
    }

    /// Stores `chunk` at `xz` unless a chunk is held there already; a chunk
    /// already held is never replaced. Returns whether `chunk` was stored.
    pub fn insert_if_absent(&mut self, xz: ChunkPos, chunk: Chunk) -> (r: bool)
        ensures
            r == !old(self).contents().contains_key(xz),
            r ==> final(self).contents() == old(self).contents().insert(xz, chunk),
            !r ==> final(self).contents() == old(self).contents(),
    {
        if map_contains(&self.0, &xz) {
            false
        } else {
            map_insert(&mut self.0, xz, chunk);
            true
        }
    }

    /// Makes sure a chunk is held at `xz`, storing an empty one when none is.
    /// Returns whether one was stored.
    pub fn ensure_chunk(&mut self, xz: ChunkPos) -> (r: bool)
        ensures
            r == !old(self).contents().contains_key(xz),
            final(self).contents().contains_key(xz),
            !r ==> final(self).contents() == old(self).contents(),
            r ==> final(self).contents().remove(xz) == old(self).contents(),
            r ==> final(self).contents()[xz].spec_palette_size() == 0,
    {
        let inserted = self.insert_if_absent(xz, Chunk::new_empty());
        proof {
            if inserted {
                assert(self.contents().remove(xz) =~= old(self).contents());
            }
        }
        inserted
    }
}

} // verus!
