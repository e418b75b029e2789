use playform::block_cache::BlockCache;
use playform::lod::LODIndex;
use playform::position::BlockPosition;

#[test]
fn cache_starts_empty() {
    let cache = BlockCache::new();
    assert!(cache.get(&BlockPosition::new(0, 0, 0)).is_none());
    assert!(!cache.contains(&BlockPosition::new(0, 0, 0)));
}

#[test]
fn insert_then_get() {
    let mut cache = BlockCache::new();
    let p = BlockPosition::new(1, -2, 3);
    cache.insert(p, vec![10, 11], LODIndex(1));
    let block = cache.get(&p).unwrap();
    assert_eq!(block.mesh_ids, vec![10, 11]);
    assert_eq!(block.lod, LODIndex(1));
    assert!(cache.contains(&p));
    assert!(cache.get(&BlockPosition::new(1, -2, 4)).is_none());
    assert!(cache.get(&BlockPosition::new(-2, 1, 3)).is_none());
}

#[test]
fn insert_replaces_in_place() {
    let mut cache = BlockCache::new();
    let p = BlockPosition::new(0, 0, 0);
    cache.insert(p, vec![1], LODIndex(2));
    cache.insert(p, vec![2, 3], LODIndex(0));
    let block = cache.get(&p).unwrap();
    assert_eq!(block.mesh_ids, vec![2, 3]);
    assert_eq!(block.lod, LODIndex(0));
}

#[test]
fn remove_twice_is_safe() {
    let mut cache = BlockCache::new();
    let p = BlockPosition::new(5, 5, 5);
    let q = BlockPosition::new(5, 5, 6);
    cache.insert(p, vec![7], LODIndex(0));
    cache.insert(q, vec![8], LODIndex(1));
    let first = cache.remove(&p).unwrap();
    assert_eq!(first.mesh_ids, vec![7]);
    assert_eq!(first.lod, LODIndex(0));
    assert!(cache.remove(&p).is_none());
    assert!(cache.get(&p).is_none());
    assert_eq!(cache.get(&q).unwrap().mesh_ids, vec![8]);
}

#[test]
fn remove_of_an_absent_block_is_nothing() {
    let mut cache = BlockCache::new();
    assert!(cache.remove(&BlockPosition::new(0, 0, 0)).is_none());
}

#[test]
fn blocks_at_the_corners_of_the_world_stay_apart() {
    let mut cache = BlockCache::new();
    let corners = [i32::MIN, -1, 0, i32::MAX];
    let mut n = 0u32;
    for x in corners.iter() {
        for y in corners.iter() {
            for z in corners.iter() {
                cache.insert(BlockPosition::new(*x, *y, *z), vec![n], LODIndex(0));
                n += 1;
            }
        }
    }
    let mut n = 0u32;
    for x in corners.iter() {
        for y in corners.iter() {
            for z in corners.iter() {
                assert_eq!(cache.get(&BlockPosition::new(*x, *y, *z)).unwrap().mesh_ids, vec![n]);
                n += 1;
            }
        }
    }
}
