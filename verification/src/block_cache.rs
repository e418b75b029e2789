//! The block cache: which blocks are resident, at what level of detail, and
//! with which mesh handles.

use vstd::prelude::*;
use std::collections::HashMap;
use crate::position::BlockPosition;
use crate::lod::LODIndex;

verus! {

/// A resident block: the handles of its meshes, which the renderer owns, and
/// the level of detail that they were made at.
#[derive(Debug)]
pub struct LoadedBlock {
    pub mesh_ids: Vec<u32>,
    pub lod: LODIndex,
}

/// The number under which a block is stored: its coordinates, each moved to
/// start at zero, as the three digits of a number in base 2^32.
pub open spec fn key_of(p: BlockPosition) -> u128 {
    ((p.x + 0x8000_0000) * 0x1_0000_0000_0000_0000 + (p.y + 0x8000_0000) * 0x1_0000_0000 + (p.z
        + 0x8000_0000)) as u128
}

/// Different blocks are stored under different numbers.
pub proof fn lemma_key_injective(p: BlockPosition, q: BlockPosition)
    ensures
        key_of(p) == key_of(q) <==> p == q,
{
}

fn key(p: &BlockPosition) -> (k: u128)
    ensures
        k == key_of(*p),
{
    let x: u128 = (p.x as i64 + 0x8000_0000) as u128;
    let y: u128 = (p.y as i64 + 0x8000_0000) as u128;
    let z: u128 = (p.z as i64 + 0x8000_0000) as u128;
    x * 0x1_0000_0000_0000_0000 + y * 0x1_0000_0000 + z
}

/// A passive store of resident blocks by position. Nothing leaves it but by `remove`.
#[derive(Debug)]
pub struct BlockCache {
    blocks: HashMap<u128, LoadedBlock>,
}

impl View for BlockCache {
    type V = Map<BlockPosition, LoadedBlock>;

    /// The resident blocks by position.
    closed spec fn view(&self) -> Map<BlockPosition, LoadedBlock> {
        Map::new(
            |p: BlockPosition| self.blocks@.contains_key(key_of(p)),
            |p: BlockPosition| self.blocks@[key_of(p)],
        )
    }
}

impl BlockCache {
    /// A cache with no resident block.
    pub fn new() -> (cache: Self)
        ensures
            cache@ == Map::<BlockPosition, LoadedBlock>::empty(),
    {
        let cache = BlockCache { blocks: HashMap::new() };
        assert(cache@ =~= Map::<BlockPosition, LoadedBlock>::empty());
        cache
    }

    /// The block at `position`, if it is resident.
    pub fn get(&self, position: &BlockPosition) -> (r: Option<&LoadedBlock>)
        ensures
            match r {
                Some(block) => self@.contains_key(*position) && *block == self@[*position],
                None => !self@.contains_key(*position),
            },
    {
        broadcast use vstd::std_specs::hash::group_hash_axioms;

        let k: u128 = key(position);
        self.blocks.get(&k)
    }

    /// Whether the block at `position` is resident.
    pub fn contains(&self, position: &BlockPosition) -> (b: bool)
        ensures
            b == self@.contains_key(*position),
    {
        self.get(position).is_some()
    }

    /// Makes the block at `position` resident with these handles and level
    /// of detail, in place of what was there.
    pub fn insert(&mut self, position: BlockPosition, mesh_ids: Vec<u32>, lod: LODIndex)
        ensures
            final(self)@ == old(self)@.insert(position, (LoadedBlock { mesh_ids, lod })),
    {
        broadcast use vstd::std_specs::hash::group_hash_axioms;

        let k: u128 = key(&position);
        let block = LoadedBlock { mesh_ids, lod };
        self.blocks.insert(k, block);
        proof {
            assert forall|q: BlockPosition| key_of(q) == key_of(position) implies q
                == position by {
                lemma_key_injective(q, position);
            }
            assert(self@ =~= old(self)@.insert(position, block));
        }
    }

    /// Takes the block at `position` out of the cache and returns it; where
    /// it is not resident, nothing changes and nothing is returned.
    pub fn remove(&mut self, position: &BlockPosition) -> (r: Option<LoadedBlock>)
        ensures
            final(self)@ == old(self)@.remove(*position),
            match r {
                Some(block) => old(self)@.contains_key(*position) && block == old(self)@[*position],
                None => !old(self)@.contains_key(*position) && final(self)@ == old(self)@,
            },
    {
        broadcast use vstd::std_specs::hash::group_hash_axioms;

        let k: u128 = key(position);
        let r = self.blocks.remove(&k);
        proof {
            assert forall|q: BlockPosition| key_of(q) == key_of(*position) implies q
                == *position by {
                lemma_key_injective(q, *position);
            }
            assert(self@ =~= old(self)@.remove(*position));
            if r.is_none() {
                assert(self@ =~= old(self)@);
            }
        }
        r
    }
}

/// Removing a block a second time changes nothing: it is gone after the first.
pub proof fn lemma_remove_idempotent(blocks: Map<BlockPosition, LoadedBlock>, p: BlockPosition)
    ensures
        !blocks.remove(p).contains_key(p),
        blocks.remove(p).remove(p) == blocks.remove(p),
{
    assert(blocks.remove(p).remove(p) =~= blocks.remove(p));
}

} // verus!
