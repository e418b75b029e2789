//! The streaming loop's decisions: what to ask of the generator and what to
//! tell the renderer when the observer moves and when a block arrives.

use vstd::prelude::*;
use crate::position::BlockPosition;
use crate::lod::{LODIndex, ConfigError, lod_tier, lod_index_for_distance, tier_index, lemma_tier_from};
use crate::shell::{LODChange, is_shell_diff, tier_at, change_for};
use crate::resident::{region, unloaded_by, loaded_by, is_load_of, one_change_per_block};
use crate::block_cache::{BlockCache, LoadedBlock};
use crate::surroundings_loader::{SurroundingsLoader, loader_fault};

verus! {

/// A request to the generator for one block at one level of detail.
#[derive(Clone, Copy, Debug, PartialEq, Eq, Structural)]
pub struct BlockRequest {
    pub position: BlockPosition,
    pub lod: LODIndex,
}

/// A notification to the renderer, which owns the meshes.
#[derive(Debug)]
pub enum ViewUpdate {
    /// New geometry for a block at a level of detail, with its mesh handles.
    AddTerrain(BlockPosition, LODIndex, Vec<u32>),
    /// Release one mesh handle.
    RemoveTerrain(u32),
    /// The block's data at this level of detail is no longer needed.
    RemoveBlockData(BlockPosition, LODIndex),
}

/// What one move of the observer leads to.
#[derive(Debug)]
pub struct Tick {
    /// The changes that the move asked for, in the order of delivery.
    pub changes: Vec<LODChange>,
    /// The requests for the generator, in the order of the loads.
    pub requests: Vec<BlockRequest>,
    /// The notifications for the renderer, in the order of the unloads.
    pub releases: Vec<ViewUpdate>,
}

/// The notifications that release a block: one for each mesh handle, in
/// order, then one for the block's data.
pub open spec fn release_updates(position: BlockPosition, block: LoadedBlock) -> Seq<ViewUpdate> {
    Seq::new(
        block.mesh_ids@.len() + 1,
        |i: int|
            if i < block.mesh_ids@.len() {
                ViewUpdate::RemoveTerrain(block.mesh_ids@[i])
            } else {
                ViewUpdate::RemoveBlockData(position, block.lod)
            },
    )
}

/// The request that a load of block `p` at `distance` leads to: none where
/// the distance has no tier index or the block is resident at that tier.
pub open spec fn request_for(
    resident: Map<BlockPosition, LoadedBlock>,
    thresholds: Seq<i32>,
    p: BlockPosition,
    distance: i32,
) -> Option<BlockRequest> {
    let tier = lod_tier(thresholds, distance as int);
    if distance < 0 || tier > u32::MAX {
        None
    } else if resident.contains_key(p) && resident[p].lod.0 == tier {
        None
    } else {
        Some(BlockRequest { position: p, lod: LODIndex(tier as u32) })
    }
}

/// The resident blocks after the changes: each unload takes its block out.
pub open spec fn resident_after(
    changes: Seq<LODChange>,
    resident: Map<BlockPosition, LoadedBlock>,
) -> Map<BlockPosition, LoadedBlock>
    decreases changes.len(),
{
    if changes.len() == 0 {
        resident
    } else {
        let rest = resident_after(changes.drop_last(), resident);
        match changes.last() {
            LODChange::Load(_, _) => rest,
            LODChange::Unload(p) => rest.remove(p),
        }
    }
}

/// The requests that the changes lead to, in order: for each load, the
/// request that it leads to with the blocks resident at that point.
pub open spec fn requests_for(
    changes: Seq<LODChange>,
    resident: Map<BlockPosition, LoadedBlock>,
    thresholds: Seq<i32>,
) -> Seq<BlockRequest>
    decreases changes.len(),
{
    if changes.len() == 0 {
        Seq::empty()
    } else {
        let rest = requests_for(changes.drop_last(), resident, thresholds);
        match changes.last() {
            LODChange::Load(p, d) => match request_for(
                resident_after(changes.drop_last(), resident),
                thresholds,
                p,
                d,
            ) {
                Some(request) => rest.push(request),
                None => rest,
            },
            LODChange::Unload(_) => rest,
        }
    }
}

/// The notifications that the changes lead to, in order: for each unload of
/// a block resident at that point, the notifications that release it.
pub open spec fn releases_for(
    changes: Seq<LODChange>,
    resident: Map<BlockPosition, LoadedBlock>,
) -> Seq<ViewUpdate>
    decreases changes.len(),
{
    if changes.len() == 0 {
        Seq::empty()
    } else {
        let rest = releases_for(changes.drop_last(), resident);
        let before = resident_after(changes.drop_last(), resident);
        match changes.last() {
            LODChange::Load(_, _) => rest,
            LODChange::Unload(p) => if before.contains_key(p) {
                rest + release_updates(p, before[p])
            } else {
                rest
            },
        }
    }
}

/// Appends to `updates` the notifications that release `block`.
fn push_release(updates: Vec<ViewUpdate>, position: BlockPosition, block: &LoadedBlock) -> (res: Vec<
    ViewUpdate,
>)
    ensures
        res@ == updates@ + release_updates(position, *block),
{
    let mut res: Vec<ViewUpdate> = updates;
    let mut i: usize = 0;
    while i < block.mesh_ids.len()
        invariant
            i <= block.mesh_ids.len(),
            res@.len() == updates@.len() + i,
            forall|k: int| 0 <= k < updates@.len() ==> res@[k] == updates@[k],
            forall|k: int|
                0 <= k < i ==> res@[updates@.len() + k] == ViewUpdate::RemoveTerrain(
                    block.mesh_ids@[k],
                ),
        decreases block.mesh_ids.len() - i,
    {
        res.push(ViewUpdate::RemoveTerrain(block.mesh_ids[i]));
        i += 1;
    }
    res.push(ViewUpdate::RemoveBlockData(position, block.lod));
    assert(res@ =~= updates@ + release_updates(position, *block));
    res
}

/// Carries out the changes of a move on the cache: for each load, a request
/// unless the block is resident at the load's tier; for each unload, the
/// block leaves the cache and, if it was resident, is released.
pub fn carry_out(cache: &mut BlockCache, changes: &Vec<LODChange>, thresholds: &Vec<i32>) -> (r: (
    Vec<BlockRequest>,
    Vec<ViewUpdate>,
))
    ensures
        r.0@ == requests_for(changes@, old(cache)@, thresholds@),
        r.1@ == releases_for(changes@, old(cache)@),
        final(cache)@ == resident_after(changes@, old(cache)@),
{
    let mut requests: Vec<BlockRequest> = Vec::new();
    let mut releases: Vec<ViewUpdate> = Vec::new();
    let mut i: usize = 0;
    while i < changes.len()
        invariant
            i <= changes.len(),
            requests@ == requests_for(changes@.take(i as int), old(cache)@, thresholds@),
            releases@ == releases_for(changes@.take(i as int), old(cache)@),
            cache@ == resident_after(changes@.take(i as int), old(cache)@),
        decreases changes.len() - i,
    {
        proof {
            assert(changes@.take(i + 1).drop_last() =~= changes@.take(i as int));
            assert(changes@.take(i + 1).last() == changes@[i as int]);
        }
        match changes[i] {
            LODChange::Load(p, d) => {
                match lod_index_for_distance(d, thresholds) {
                    Ok(lod) => {
                        let have: bool = match cache.get(&p) {
                            Some(block) => block.lod.0 == lod.0,
                            None => false,
                        };
                        if !have {
                            requests.push(BlockRequest { position: p, lod });
                        }
                    },
                    Err(_) => {},
                }
            },
            LODChange::Unload(p) => {
                match cache.remove(&p) {
                    Some(block) => {
                        releases = push_release(releases, p, &block);
                    },
                    None => {},
                }
            },
        }
        i += 1;
    }
    assert(changes@.take(i as int) =~= changes@);
    (requests, releases)
}

/// A block is resident after the changes exactly if it was resident and no
/// change unloads it, and it is then what it was.
pub proof fn lemma_resident_after(
    changes: Seq<LODChange>,
    resident: Map<BlockPosition, LoadedBlock>,
    p: BlockPosition,
)
    ensures
        resident_after(changes, resident).contains_key(p) <==> resident.contains_key(p)
            && !unloaded_by(changes, p),
        resident_after(changes, resident).contains_key(p) ==> resident_after(changes, resident)[p]
            == resident[p],
    decreases changes.len(),
{
    if changes.len() > 0 {
        let front = changes.drop_last();
        let n = changes.len() - 1;
        lemma_resident_after(front, resident, p);
        if unloaded_by(front, p) {
            let k = choose|k: int| 0 <= k < front.len() && #[trigger] front[k] == LODChange::Unload(p);
            assert(changes[k] == front[k]);
        }
        if unloaded_by(changes, p) {
            let k = choose|k: int|
                0 <= k < changes.len() && #[trigger] changes[k] == LODChange::Unload(p);
            if k < n {
                assert(front[k] == changes[k]);
            }
        }
        if changes[n] == LODChange::Unload(p) {
            assert(unloaded_by(changes, p));
        }
    }
}

/// Every request that the changes lead to is for a block that one of them loads.
pub proof fn lemma_requests_come_from_loads(
    changes: Seq<LODChange>,
    resident: Map<BlockPosition, LoadedBlock>,
    thresholds: Seq<i32>,
    i: int,
)
    requires
        0 <= i < requests_for(changes, resident, thresholds).len(),
    ensures
        loaded_by(changes, requests_for(changes, resident, thresholds)[i].position),
    decreases changes.len(),
{
    let front = changes.drop_last();
    let rest = requests_for(front, resident, thresholds);
    let n = changes.len() - 1;
    if i < rest.len() {
        lemma_requests_come_from_loads(front, resident, thresholds, i);
        let p = rest[i].position;
        let k = choose|k: int| 0 <= k < front.len() && is_load_of(#[trigger] front[k], p);
        assert(is_load_of(changes[k], p));
    } else {
        assert(is_load_of(changes[n], requests_for(changes, resident, thresholds)[i].position));
    }
}

/// Where no block occurs twice among the changes, no block is asked for twice.
pub proof fn lemma_one_request_per_block(
    changes: Seq<LODChange>,
    resident: Map<BlockPosition, LoadedBlock>,
    thresholds: Seq<i32>,
    i: int,
    j: int,
)
    requires
        one_change_per_block(changes),
        0 <= i < j < requests_for(changes, resident, thresholds).len(),
    ensures
        requests_for(changes, resident, thresholds)[i].position != requests_for(
            changes,
            resident,
            thresholds,
        )[j].position,
    decreases changes.len(),
{
    let front = changes.drop_last();
    let rest = requests_for(front, resident, thresholds);
    let n = changes.len() - 1;
    assert forall|a: int, b: int| 0 <= a < b < front.len() implies (#[trigger] front[a]).position()
        != (#[trigger] front[b]).position() by {
        assert(front[a] == changes[a] && front[b] == changes[b]);
    }
    if j < rest.len() {
        lemma_one_request_per_block(front, resident, thresholds, i, j);
    } else {
        lemma_requests_come_from_loads(front, resident, thresholds, i);
        let p = rest[i].position;
        let k = choose|k: int| 0 <= k < front.len() && is_load_of(#[trigger] front[k], p);
        assert(changes[k].position() == p);
        assert(changes[n].position() == requests_for(changes, resident, thresholds)[j].position);
    }
}

/// The notifications that release what was resident at `position`, if anything.
pub open spec fn previous_release(
    resident: Map<BlockPosition, LoadedBlock>,
    position: BlockPosition,
) -> Seq<ViewUpdate> {
    if resident.contains_key(position) {
        release_updates(position, resident[position])
    } else {
        Seq::empty()
    }
}

/// The notification is new geometry for this block at this level of detail
/// with these mesh handles.
pub open spec fn adds_terrain(
    update: ViewUpdate,
    position: BlockPosition,
    lod: LODIndex,
    mesh_ids: Seq<u32>,
) -> bool {
    match update {
        ViewUpdate::AddTerrain(p, l, ids) => p == position && l == lod && ids@ == mesh_ids,
        _ => false,
    }
}

/// An arriving block is taken where the observer's last position puts it in
/// the tier that it was made for and it is not resident at that tier already.
pub open spec fn takes_block(
    last: Option<BlockPosition>,
    load_distance: int,
    thresholds: Seq<i32>,
    resident: Map<BlockPosition, LoadedBlock>,
    position: BlockPosition,
    lod: LODIndex,
) -> bool {
    &&& tier_at(last, position, thresholds, load_distance) == Some(lod.0 as int)
    &&& !(resident.contains_key(position) && resident[position].lod == lod)
}

fn copy_ids(ids: &Vec<u32>) -> (copy: Vec<u32>)
    ensures
        copy@ == ids@,
{
    let mut copy: Vec<u32> = Vec::new();
    let mut i: usize = 0;
    while i < ids.len()
        invariant
            i <= ids.len(),
            copy@ == ids@.take(i as int),
        decreases ids.len() - i,
    {
        copy.push(ids[i]);
        proof {
            assert(copy@ =~= ids@.take(i + 1));
        }
        i += 1;
    }
    assert(ids@.take(i as int) =~= ids@);
    copy
}

/// The state that the streaming loop owns: where the observer was, and which
/// blocks are resident.
#[derive(Debug)]
pub struct StreamingLoop {
    loader: SurroundingsLoader,
    cache: BlockCache,
}

impl StreamingLoop {
    /// Where the observer was at the last move; nothing before the first.
    pub closed spec fn last(&self) -> Option<BlockPosition> {
        self.loader.last()
    }

    /// The radius of the loaded region.
    pub closed spec fn reach(&self) -> int {
        self.loader.reach()
    }

    /// The tier thresholds.
    pub closed spec fn tiers(&self) -> Seq<i32> {
        self.loader.tiers()
    }

    /// The resident blocks by position.
    pub closed spec fn resident(&self) -> Map<BlockPosition, LoadedBlock> {
        self.cache@
    }

    /// Every resident block lies within the load distance of the observer's
    /// last position.
    pub open spec fn no_stale_block(&self) -> bool {
        forall|p: BlockPosition| #[trigger]
            self.resident().contains_key(p) ==> region(self.last(), self.reach()).contains(p)
    }

    /// A loop that has seen no position and holds no block. The
    /// configuration is refused as the surroundings loader refuses it.
    pub fn new(load_distance: i32, thresholds: Vec<i32>) -> (r: Result<Self, ConfigError>)
        ensures
            match loader_fault(load_distance as int, thresholds@) {
                Some(e) => r is Err && r->Err_0 == e,
                None => r is Ok && r->Ok_0.last().is_none() && r->Ok_0.reach() == load_distance
                    && r->Ok_0.tiers() == thresholds@ && r->Ok_0.resident() == Map::<
                    BlockPosition,
                    LoadedBlock,
                >::empty() && r->Ok_0.no_stale_block(),
            },
    {
        match SurroundingsLoader::new(load_distance, thresholds) {
            Ok(loader) => Ok(StreamingLoop { loader, cache: BlockCache::new() }),
            Err(e) => Err(e),
        }
    }

    /// The block resident at `position`, if any.
    pub fn get(&self, position: &BlockPosition) -> (r: Option<&LoadedBlock>)
        ensures
            match r {
                Some(block) => self.resident().contains_key(*position) && *block
                    == self.resident()[*position],
                None => !self.resident().contains_key(*position),
            },
    {
        self.cache.get(position)
    }

    /// The observer is at `position`: works out the changes that the move
    /// asks for and carries them out on the cache. No block that lies beyond
    /// the load distance of the new position stays resident.
    pub fn observe(&mut self, position: BlockPosition) -> (tick: Tick)
        ensures
            is_shell_diff(
                tick.changes@,
                old(self).last(),
                position,
                old(self).tiers(),
                old(self).reach(),
            ),
            tick.requests@ == requests_for(tick.changes@, old(self).resident(), old(self).tiers()),
            tick.releases@ == releases_for(tick.changes@, old(self).resident()),
            final(self).resident() == resident_after(tick.changes@, old(self).resident()),
            final(self).last() == Some(position),
            final(self).reach() == old(self).reach(),
            final(self).tiers() == old(self).tiers(),
            old(self).no_stale_block() ==> final(self).no_stale_block(),
    {
        let changes: Vec<LODChange> = self.loader.update(position);
        let (requests, releases) = carry_out(&mut self.cache, &changes, self.loader.thresholds());
        proof {
            if old(self).no_stale_block() {
                assert forall|p: BlockPosition| #[trigger]
                    self.resident().contains_key(p) implies region(
                    self.last(),
                    self.reach(),
                ).contains(p) by {
                    lemma_resident_after(changes@, old(self).resident(), p);
                    assert(old(self).resident().contains_key(p));
                    if !region(Some(position), self.reach()).contains(p) {
                        let c = change_for(
                            old(self).last(),
                            position,
                            self.tiers(),
                            self.reach(),
                            p,
                        );
                        assert(c == Some(LODChange::Unload(p)));
                        assert(changes@.contains(c.unwrap()));
                        let k = choose|k: int| 0 <= k < changes@.len() && changes@[k] == c.unwrap();
                        assert(changes@[k] == LODChange::Unload(p));
                    }
                }
            }
        }
        Tick { changes, requests, releases }
    }

    /// A block has arrived from the generator. Where it is taken, what was
    /// resident at its position is released, the block becomes resident and
    /// the renderer gets its geometry; where it is not, it is dropped and
    /// nothing changes.
    pub fn block_ready(&mut self, position: BlockPosition, lod: LODIndex, mesh_ids: Vec<u32>) -> (updates:
        Vec<ViewUpdate>)
        ensures
            final(self).last() == old(self).last(),
            final(self).reach() == old(self).reach(),
            final(self).tiers() == old(self).tiers(),
            old(self).no_stale_block() ==> final(self).no_stale_block(),
            !takes_block(
                old(self).last(),
                old(self).reach(),
                old(self).tiers(),
                old(self).resident(),
                position,
                lod,
            ) ==> updates@.len() == 0 && final(self).resident() == old(self).resident(),
            takes_block(
                old(self).last(),
                old(self).reach(),
                old(self).tiers(),
                old(self).resident(),
                position,
                lod,
            ) ==> {
                &&& final(self).resident() == old(self).resident().insert(
                    position,
                    (LoadedBlock { mesh_ids, lod }),
                )
                &&& updates@.len() == previous_release(old(self).resident(), position).len() + 1
                &&& updates@.take(updates@.len() - 1) == previous_release(
                    old(self).resident(),
                    position,
                )
                &&& adds_terrain(updates@.last(), position, lod, mesh_ids@)
            },
    {
        let mut updates: Vec<ViewUpdate> = Vec::new();
        let in_tier: bool = match self.loader.last_position() {
            Some(center) => {
                let d: i64 = center.radius_between(&position);
                proof {
                    lemma_tier_from(self.tiers(), d as int, 0);
                }
                d <= self.loader.load_distance() as i64 && tier_index(
                    d,
                    self.loader.thresholds(),
                ) as u64 == lod.0 as u64
            },
            None => false,
        };
        let have: bool = match self.cache.get(&position) {
            Some(block) => block.lod.0 == lod.0,
            None => false,
        };
        if !in_tier || have {
            return updates;
        }
        match self.cache.remove(&position) {
            Some(block) => {
                updates = push_release(updates, position, &block);
            },
            None => {},
        }
        let ghost released = updates@;
        updates.push(ViewUpdate::AddTerrain(position, lod, copy_ids(&mesh_ids)));
        self.cache.insert(position, mesh_ids, lod);
        proof {
            assert(released =~= previous_release(old(self).resident(), position));
            assert(updates@.take(updates@.len() - 1) =~= released);
            assert(self.resident() =~= old(self).resident().insert(
                position,
                (LoadedBlock { mesh_ids, lod }),
            ));
        }
        updates
    }
}

} // verus!
