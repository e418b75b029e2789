use playform::lod::{ConfigError, LODIndex};
use playform::position::BlockPosition;
use playform::shell::LODChange;
use playform::block_cache::BlockCache;
use playform::streaming::{carry_out, BlockRequest, StreamingLoop, ViewUpdate};

fn at(x: i32, y: i32, z: i32) -> BlockPosition {
    BlockPosition::new(x, y, z)
}

fn same(a: &ViewUpdate, b: &ViewUpdate) -> bool {
    match (a, b) {
        (ViewUpdate::AddTerrain(p, l, ids), ViewUpdate::AddTerrain(q, m, jds)) => {
            p == q && l == m && ids == jds
        }
        (ViewUpdate::RemoveTerrain(i), ViewUpdate::RemoveTerrain(j)) => i == j,
        (ViewUpdate::RemoveBlockData(p, l), ViewUpdate::RemoveBlockData(q, m)) => p == q && l == m,
        _ => false,
    }
}

fn same_all(a: &Vec<ViewUpdate>, b: &Vec<ViewUpdate>) -> bool {
    a.len() == b.len() && a.iter().zip(b.iter()).all(|(x, y)| same(x, y))
}

#[test]
fn first_move_requests_every_block_in_reach() {
    let mut streaming = StreamingLoop::new(2, vec![0]).unwrap();
    let tick = streaming.observe(at(0, 0, 0));
    assert_eq!(tick.changes.len(), 125);
    assert_eq!(tick.requests.len(), 125);
    assert!(tick.releases.is_empty());
    assert_eq!(tick.requests[0], BlockRequest { position: at(0, 0, 0), lod: LODIndex(0) });
    for (change, request) in tick.changes.iter().zip(tick.requests.iter()) {
        match change {
            LODChange::Load(p, d) => {
                assert_eq!(request.position, *p);
                assert_eq!(request.lod, LODIndex(if *d <= 0 { 0 } else { 1 }));
            }
            LODChange::Unload(_) => panic!("nothing to unload"),
        }
    }
}

#[test]
fn arriving_block_becomes_resident() {
    let mut streaming = StreamingLoop::new(2, vec![1]).unwrap();
    streaming.observe(at(0, 0, 0));
    let updates = streaming.block_ready(at(1, 0, 0), LODIndex(0), vec![4, 5]);
    assert!(same_all(&updates, &vec![ViewUpdate::AddTerrain(at(1, 0, 0), LODIndex(0), vec![4, 5])]));
    let block = streaming.get(&at(1, 0, 0)).unwrap();
    assert_eq!(block.mesh_ids, vec![4, 5]);
    assert_eq!(block.lod, LODIndex(0));
}

#[test]
fn stale_and_repeated_blocks_are_dropped() {
    let mut streaming = StreamingLoop::new(2, vec![1]).unwrap();
    // Nothing is of interest before the observer is anywhere.
    assert!(streaming.block_ready(at(0, 0, 0), LODIndex(0), vec![1]).is_empty());
    assert!(streaming.get(&at(0, 0, 0)).is_none());
    streaming.observe(at(0, 0, 0));
    // Beyond the load distance.
    assert!(streaming.block_ready(at(3, 0, 0), LODIndex(1), vec![1]).is_empty());
    assert!(streaming.get(&at(3, 0, 0)).is_none());
    // Made for another tier than the block is in.
    assert!(streaming.block_ready(at(2, 0, 0), LODIndex(0), vec![1]).is_empty());
    assert!(streaming.get(&at(2, 0, 0)).is_none());
    // The same block twice.
    assert_eq!(streaming.block_ready(at(2, 0, 0), LODIndex(1), vec![1]).len(), 1);
    assert!(streaming.block_ready(at(2, 0, 0), LODIndex(1), vec![2]).is_empty());
    assert_eq!(streaming.get(&at(2, 0, 0)).unwrap().mesh_ids, vec![1]);
}

#[test]
fn unload_releases_every_handle_then_the_data() {
    let mut streaming = StreamingLoop::new(1, vec![]).unwrap();
    streaming.observe(at(0, 0, 0));
    streaming.block_ready(at(-1, 0, 0), LODIndex(0), vec![7, 8, 9]);
    streaming.block_ready(at(0, 0, 0), LODIndex(0), vec![3]);
    let tick = streaming.observe(at(1, 0, 0));
    assert_eq!(tick.requests.len(), 9);
    assert!(same_all(
        &tick.releases,
        &vec![
            ViewUpdate::RemoveTerrain(7),
            ViewUpdate::RemoveTerrain(8),
            ViewUpdate::RemoveTerrain(9),
            ViewUpdate::RemoveBlockData(at(-1, 0, 0), LODIndex(0)),
        ]
    ));
    assert!(streaming.get(&at(-1, 0, 0)).is_none());
    assert_eq!(streaming.get(&at(0, 0, 0)).unwrap().mesh_ids, vec![3]);
    // A late answer for the block that has left is dropped.
    assert!(streaming.block_ready(at(-1, 0, 0), LODIndex(0), vec![7]).is_empty());
    assert!(streaming.get(&at(-1, 0, 0)).is_none());
}

#[test]
fn a_change_of_tier_replaces_the_block() {
    let mut streaming = StreamingLoop::new(2, vec![1]).unwrap();
    streaming.observe(at(0, 0, 0));
    streaming.block_ready(at(-1, 0, 0), LODIndex(0), vec![1, 2]);
    let tick = streaming.observe(at(1, 0, 0));
    assert!(tick.requests.contains(&BlockRequest { position: at(-1, 0, 0), lod: LODIndex(1) }));
    assert!(tick.releases.is_empty());
    let updates = streaming.block_ready(at(-1, 0, 0), LODIndex(1), vec![3]);
    assert!(same_all(
        &updates,
        &vec![
            ViewUpdate::RemoveTerrain(1),
            ViewUpdate::RemoveTerrain(2),
            ViewUpdate::RemoveBlockData(at(-1, 0, 0), LODIndex(0)),
            ViewUpdate::AddTerrain(at(-1, 0, 0), LODIndex(1), vec![3]),
        ]
    ));
    assert_eq!(streaming.get(&at(-1, 0, 0)).unwrap().lod, LODIndex(1));
}

#[test]
fn no_request_for_a_block_resident_at_that_tier() {
    let mut streaming = StreamingLoop::new(2, vec![1]).unwrap();
    let p = at(-1, 0, 0);
    let first = streaming.observe(at(0, 0, 0));
    assert!(first.requests.contains(&BlockRequest { position: p, lod: LODIndex(0) }));
    streaming.block_ready(p, LODIndex(0), vec![1]);
    // Away: the block falls back a tier, and the answer for that tier is still out.
    let away = streaming.observe(at(1, 0, 0));
    assert!(away.requests.contains(&BlockRequest { position: p, lod: LODIndex(1) }));
    // Back: the block is resident at the finest tier, so it is not asked for again.
    let back = streaming.observe(at(0, 0, 0));
    assert!(back.changes.contains(&LODChange::Load(p, 1)));
    assert!(!back.requests.iter().any(|r| r.position == p));
    // Standing still asks for nothing.
    let still = streaming.observe(at(0, 0, 0));
    assert!(still.changes.is_empty() && still.requests.is_empty() && still.releases.is_empty());
}

#[test]
fn resident_blocks_follow_the_observer() {
    let l = 2;
    let mut streaming = StreamingLoop::new(l, vec![0]).unwrap();
    let mut pos = at(0, 0, 0);
    let mut id = 0u32;
    for step in 0..12 {
        let tick = streaming.observe(pos);
        for request in tick.requests.iter() {
            id += 1;
            assert!(!streaming.block_ready(request.position, request.lod, vec![id]).is_empty());
        }
        for x in (pos.x - l - 2)..=(pos.x + l + 2) {
            for y in (pos.y - l - 2)..=(pos.y + l + 2) {
                for z in (pos.z - l - 2)..=(pos.z + l + 2) {
                    let p = at(x, y, z);
                    let d = pos.radius_between(&p);
                    match streaming.get(&p) {
                        Some(block) => {
                            assert!(d <= l as i64);
                            assert_eq!(block.lod, LODIndex(if d <= 0 { 0 } else { 1 }));
                        }
                        None => assert!(d > l as i64),
                    }
                }
            }
        }
        pos = at(pos.x + 1, pos.y - (step % 2), pos.z + (step % 3) - 1);
    }
}

#[test]
fn changes_are_carried_out_in_order() {
    let mut cache = BlockCache::new();
    cache.insert(at(0, 0, 0), vec![1], LODIndex(0));
    cache.insert(at(9, 0, 0), vec![2, 3], LODIndex(2));
    let changes = vec![
        LODChange::Load(at(0, 0, 0), 1),
        LODChange::Load(at(1, 0, 0), 3),
        LODChange::Load(at(2, 0, 0), 6),
        LODChange::Load(at(9, 0, 0), 7),
        LODChange::Load(at(3, 0, 0), -1),
        LODChange::Unload(at(9, 0, 0)),
        LODChange::Unload(at(8, 0, 0)),
        LODChange::Load(at(9, 0, 0), 7),
    ];
    let (requests, releases) = carry_out(&mut cache, &changes, &vec![2, 5]);
    assert_eq!(
        requests,
        vec![
            BlockRequest { position: at(1, 0, 0), lod: LODIndex(1) },
            BlockRequest { position: at(2, 0, 0), lod: LODIndex(2) },
            BlockRequest { position: at(9, 0, 0), lod: LODIndex(2) },
        ]
    );
    assert!(same_all(
        &releases,
        &vec![
            ViewUpdate::RemoveTerrain(2),
            ViewUpdate::RemoveTerrain(3),
            ViewUpdate::RemoveBlockData(at(9, 0, 0), LODIndex(2)),
        ]
    ));
    assert!(cache.contains(&at(0, 0, 0)));
    assert!(!cache.contains(&at(9, 0, 0)));
}

#[test]
fn streaming_configuration_is_checked() {
    assert_eq!(StreamingLoop::new(8, vec![5, 2]).unwrap_err(), ConfigError::NotAscending);
    assert_eq!(StreamingLoop::new(2, vec![2]).unwrap_err(), ConfigError::BeyondLoadDistance);
    assert_eq!(StreamingLoop::new(-1, vec![]).unwrap_err(), ConfigError::BeyondLoadDistance);
    assert!(StreamingLoop::new(0, vec![]).is_ok());
}
