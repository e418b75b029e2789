//! The cache in step with the observer: where the generator answers every
//! request, the resident blocks are exactly the blocks within the load
//! distance, each at the tier of its distance.

use vstd::prelude::*;
use crate::position::BlockPosition;
use crate::lod::{LODIndex, lod_tier, lemma_tier_from};
use crate::shell::{LODChange, is_shell_diff, tier_at, change_for};
use crate::resident::{unloaded_by, one_change_per_block};
use crate::block_cache::LoadedBlock;
use crate::streaming::{
    BlockRequest,
    request_for,
    requests_for,
    resident_after,
    lemma_resident_after,
    lemma_one_request_per_block,
};

verus! {

/// The resident blocks are exactly the blocks within the load distance of
/// `center`, each at the tier of its distance.
pub open spec fn in_step(
    resident: Map<BlockPosition, LoadedBlock>,
    center: Option<BlockPosition>,
    thresholds: Seq<i32>,
    load_distance: int,
) -> bool {
    forall|p: BlockPosition|
        {
            &&& #[trigger] resident.contains_key(p) <==> tier_at(
                center,
                p,
                thresholds,
                load_distance,
            ).is_some()
            &&& resident.contains_key(p) ==> tier_at(center, p, thresholds, load_distance) == Some(
                resident[p].lod.0 as int,
            )
        }
}

/// The resident blocks once each request is answered, in order, by a block
/// at the tier asked for with the meshes at its place in `meshes`.
pub open spec fn answered(
    resident: Map<BlockPosition, LoadedBlock>,
    requests: Seq<BlockRequest>,
    meshes: Seq<Vec<u32>>,
) -> Map<BlockPosition, LoadedBlock>
    decreases requests.len(),
{
    if requests.len() == 0 || meshes.len() != requests.len() {
        resident
    } else {
        answered(resident, requests.drop_last(), meshes.drop_last()).insert(
            requests.last().position,
            LoadedBlock { mesh_ids: meshes.last(), lod: requests.last().lod },
        )
    }
}

/// Some request among `requests` is for block `p`.
pub open spec fn asked(requests: Seq<BlockRequest>, p: BlockPosition) -> bool {
    exists|i: int| 0 <= i < requests.len() && (#[trigger] requests[i]).position == p
}

/// The change is the load that the request answers to: of the same block, at
/// a distance in the tier asked for.
pub open spec fn asks_for(change: LODChange, request: BlockRequest, thresholds: Seq<i32>) -> bool {
    match change {
        LODChange::Load(p, d) => p == request.position && request.lod.0 == lod_tier(
            thresholds,
            d as int,
        ),
        LODChange::Unload(_) => false,
    }
}

/// Where no block is asked for twice, a block is resident after the answers
/// exactly if it was resident or was asked for; one that was asked for is at
/// the tier asked for, and any other is what it was.
pub proof fn lemma_answered(
    resident: Map<BlockPosition, LoadedBlock>,
    requests: Seq<BlockRequest>,
    meshes: Seq<Vec<u32>>,
    p: BlockPosition,
)
    requires
        meshes.len() == requests.len(),
        forall|i: int, j: int|
            0 <= i < j < requests.len() ==> (#[trigger] requests[i]).position != (
            #[trigger] requests[j]).position,
    ensures
        answered(resident, requests, meshes).contains_key(p) <==> resident.contains_key(p)
            || asked(requests, p),
        forall|i: int|
            0 <= i < requests.len() && (#[trigger] requests[i]).position == p ==> answered(
                resident,
                requests,
                meshes,
            )[p].lod == requests[i].lod,
        !asked(requests, p) && resident.contains_key(p) ==> answered(resident, requests, meshes)[p]
            == resident[p],
    decreases requests.len(),
{
    if requests.len() > 0 {
        let front = requests.drop_last();
        let n = requests.len() - 1;
        assert forall|i: int, j: int| 0 <= i < j < front.len() implies (#[trigger] front[i]).position
            != (#[trigger] front[j]).position by {
            assert(front[i] == requests[i] && front[j] == requests[j]);
        }
        lemma_answered(resident, front, meshes.drop_last(), p);
        if asked(front, p) {
            let i = choose|i: int| 0 <= i < front.len() && (#[trigger] front[i]).position == p;
            assert(requests[i] == front[i]);
            assert(requests[i].position != requests[n].position);
        }
        if asked(requests, p) {
            let i = choose|i: int| 0 <= i < requests.len() && (#[trigger] requests[i]).position == p;
            if i < n {
                assert(front[i] == requests[i]);
            }
        }
        assert forall|i: int|
            0 <= i < requests.len() && (#[trigger] requests[i]).position == p implies answered(
            resident,
            requests,
            meshes,
        )[p].lod == requests[i].lod by {
            if i < n {
                assert(front[i] == requests[i]);
                assert(requests[i].position != requests[n].position);
            }
        }
    }
}

/// A load that leads to a request has that request among the requests.
pub proof fn lemma_load_is_requested(
    changes: Seq<LODChange>,
    resident: Map<BlockPosition, LoadedBlock>,
    thresholds: Seq<i32>,
    k: int,
    p: BlockPosition,
    d: i32,
)
    requires
        0 <= k < changes.len(),
        changes[k] == LODChange::Load(p, d),
        request_for(resident_after(changes.take(k), resident), thresholds, p, d).is_some(),
    ensures
        requests_for(changes, resident, thresholds).contains(
            request_for(resident_after(changes.take(k), resident), thresholds, p, d).unwrap(),
        ),
    decreases changes.len(),
{
    let front = changes.drop_last();
    let n = changes.len() - 1;
    let rest = requests_for(front, resident, thresholds);
    let all = requests_for(changes, resident, thresholds);
    let r = request_for(resident_after(changes.take(k), resident), thresholds, p, d).unwrap();
    if k == n {
        assert(changes.take(k) =~= front);
        assert(all == rest.push(r));
        assert(all[all.len() - 1] == r);
    } else {
        assert(front.take(k) =~= changes.take(k));
        assert(front[k] == changes[k]);
        lemma_load_is_requested(front, resident, thresholds, k, p, d);
        let i = choose|i: int| 0 <= i < rest.len() && rest[i] == r;
        assert(all[i] == r);
    }
}

/// Every request answers to a load among the changes.
pub proof fn lemma_request_answers_load(
    changes: Seq<LODChange>,
    resident: Map<BlockPosition, LoadedBlock>,
    thresholds: Seq<i32>,
    i: int,
)
    requires
        0 <= i < requests_for(changes, resident, thresholds).len(),
    ensures
        exists|k: int|
            0 <= k < changes.len() && asks_for(
                #[trigger] changes[k],
                requests_for(changes, resident, thresholds)[i],
                thresholds,
            ),
    decreases changes.len(),
{
    let front = changes.drop_last();
    let n = changes.len() - 1;
    let rest = requests_for(front, resident, thresholds);
    let all = requests_for(changes, resident, thresholds);
    if i < rest.len() {
        lemma_request_answers_load(front, resident, thresholds, i);
        let k = choose|k: int| 0 <= k < front.len() && asks_for(#[trigger] front[k], rest[i], thresholds);
        assert(changes[k] == front[k]);
        assert(all[i] == rest[i]);
        assert(asks_for(changes[k], all[i], thresholds));
    } else {
        match changes[n] {
            LODChange::Load(_, d) => {
                lemma_tier_from(thresholds, d as int, 0);
            },
            LODChange::Unload(_) => {},
        }
    }
}

/// Where the cache is in step with the observer's last position, and the
/// generator answers every request of a move, the cache is in step with the
/// observer's new position: no block is missing and none is stale.
pub proof fn lemma_answers_keep_in_step(
    changes: Seq<LODChange>,
    resident: Map<BlockPosition, LoadedBlock>,
    meshes: Seq<Vec<u32>>,
    last: Option<BlockPosition>,
    cur: BlockPosition,
    thresholds: Seq<i32>,
    load_distance: int,
)
    requires
        load_distance <= i32::MAX,
        thresholds.len() <= u32::MAX,
        is_shell_diff(changes, last, cur, thresholds, load_distance),
        in_step(resident, last, thresholds, load_distance),
        meshes.len() == requests_for(changes, resident, thresholds).len(),
    ensures
        in_step(
            answered(
                resident_after(changes, resident),
                requests_for(changes, resident, thresholds),
                meshes,
            ),
            Some(cur),
            thresholds,
            load_distance,
        ),
{
    let requests = requests_for(changes, resident, thresholds);
    let kept = resident_after(changes, resident);
    let after = answered(kept, requests, meshes);
    assert(one_change_per_block(changes));
    assert forall|i: int, j: int| 0 <= i < j < requests.len() implies (#[trigger] requests[i]).position
        != (#[trigger] requests[j]).position by {
        lemma_one_request_per_block(changes, resident, thresholds, i, j);
    }
    assert forall|p: BlockPosition|
        {
            &&& #[trigger] after.contains_key(p) <==> tier_at(
                Some(cur),
                p,
                thresholds,
                load_distance,
            ).is_some()
            &&& after.contains_key(p) ==> tier_at(Some(cur), p, thresholds, load_distance) == Some(
                after[p].lod.0 as int,
            )
        } by {
        let now = tier_at(Some(cur), p, thresholds, load_distance);
        let before = tier_at(last, p, thresholds, load_distance);
        let c = change_for(last, cur, thresholds, load_distance, p);
        lemma_answered(kept, requests, meshes, p);
        lemma_resident_after(changes, resident, p);
        lemma_tier_from(thresholds, cur.distance(p), 0);
        assert(resident.contains_key(p) <==> before.is_some());
        if asked(requests, p) {
            let i = choose|i: int| 0 <= i < requests.len() && (#[trigger] requests[i]).position == p;
            lemma_request_answers_load(changes, resident, thresholds, i);
            let k = choose|k: int|
                0 <= k < changes.len() && asks_for(#[trigger] changes[k], requests[i], thresholds);
            assert(changes[k].position() == p);
            assert(c == Some(changes[k]));
        }
        if unloaded_by(changes, p) {
            let k = choose|k: int|
                0 <= k < changes.len() && #[trigger] changes[k] == LODChange::Unload(p);
            assert(changes[k].position() == p);
            assert(c == Some(changes[k]));
        }
        if c.is_some() {
            assert(changes.contains(c.unwrap()));
            let k = choose|k: int| 0 <= k < changes.len() && changes[k] == c.unwrap();
            match c.unwrap() {
                LODChange::Load(q, d) => {
                    let at_k = resident_after(changes.take(k), resident);
                    lemma_resident_after(changes.take(k), resident, p);
                    let r = BlockRequest { position: p, lod: LODIndex(now.unwrap() as u32) };
                    assert(request_for(at_k, thresholds, p, d) == Some(r));
                    lemma_load_is_requested(changes, resident, thresholds, k, p, d);
                    let i = choose|i: int| 0 <= i < requests.len() && requests[i] == r;
                    assert(requests[i].position == p);
                    assert(asked(requests, p));
                },
                LODChange::Unload(q) => {
                    assert(changes[k] == LODChange::Unload(p));
                    assert(unloaded_by(changes, p));
                },
            }
        }
    }
}

/// Before the first move, a cache with no block is in step.
pub proof fn lemma_empty_in_step(thresholds: Seq<i32>, load_distance: int)
    ensures
        in_step(Map::<BlockPosition, LoadedBlock>::empty(), None, thresholds, load_distance),
{
}

} // verus!
