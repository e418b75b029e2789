use playform::lod::{lod_index_for_distance, ConfigError, LODIndex};
use playform::position::BlockPosition;
use playform::shell::{shell_diff, LODChange};
use playform::surroundings_loader::SurroundingsLoader;
use std::collections::{HashMap, HashSet};

fn at(x: i32, y: i32, z: i32) -> BlockPosition {
    BlockPosition::new(x, y, z)
}

fn chebyshev(a: &BlockPosition, b: &BlockPosition) -> i64 {
    let dx = (a.x as i64 - b.x as i64).abs();
    let dy = (a.y as i64 - b.y as i64).abs();
    let dz = (a.z as i64 - b.z as i64).abs();
    dx.max(dy).max(dz)
}

fn tier(center: &Option<BlockPosition>, p: &BlockPosition, t: &Vec<i32>, l: i32) -> Option<u32> {
    match center {
        None => None,
        Some(c) => {
            let d = chebyshev(c, p);
            if d <= l as i64 {
                Some(t.iter().take_while(|&&r| (r as i64) < d).count() as u32)
            } else {
                None
            }
        }
    }
}

/// Holds the changes against a plain enumeration of every block near the two positions.
fn check_move(last: Option<BlockPosition>, cur: BlockPosition, t: &Vec<i32>, l: i32) {
    let changes = shell_diff(last, cur, t, l);
    let mut expected: HashMap<(i32, i32, i32), LODChange> = HashMap::new();
    let mut centers = vec![cur];
    if let Some(c) = last {
        centers.push(c);
    }
    for c in centers.iter() {
        for x in (c.x - l)..=(c.x + l) {
            for y in (c.y - l)..=(c.y + l) {
                for z in (c.z - l)..=(c.z + l) {
                    let p = at(x, y, z);
                    let now = tier(&Some(cur), &p, t, l);
                    let before = tier(&last, &p, t, l);
                    if now.is_some() && now != before {
                        expected.insert((x, y, z), LODChange::Load(p, chebyshev(&cur, &p) as i32));
                    } else if now.is_none() && before.is_some() {
                        expected.insert((x, y, z), LODChange::Unload(p));
                    }
                }
            }
        }
    }
    assert_eq!(changes.len(), expected.len());
    let mut seen: HashSet<(i32, i32, i32)> = HashSet::new();
    let mut rank = 0usize;
    for change in changes.iter() {
        let p = change.block_position();
        assert!(seen.insert((p.x, p.y, p.z)));
        assert_eq!(expected.get(&(p.x, p.y, p.z)), Some(change));
        let r = match change {
            LODChange::Load(_, d) => lod_index_for_distance(*d, t).unwrap().0 as usize,
            LODChange::Unload(_) => t.len() + 1,
        };
        assert!(r >= rank);
        rank = r;
    }
}

#[test]
fn first_update_loads_the_whole_cube() {
    let mut loader = SurroundingsLoader::new(2, vec![]).unwrap();
    assert_eq!(loader.last_position(), None);
    let changes = loader.update(at(0, 0, 0));
    assert_eq!(changes.len(), 125);
    let mut seen: HashSet<(i32, i32, i32)> = HashSet::new();
    for change in changes.iter() {
        match change {
            LODChange::Load(p, d) => {
                assert!(chebyshev(p, &at(0, 0, 0)) <= 2);
                assert_eq!(*d as i64, chebyshev(p, &at(0, 0, 0)));
                assert!(seen.insert((p.x, p.y, p.z)));
            }
            LODChange::Unload(_) => panic!("nothing to unload"),
        }
    }
    assert_eq!(seen.len(), 125);
    assert_eq!(loader.last_position(), Some(at(0, 0, 0)));
}

#[test]
fn first_update_with_tiers_loads_finest_first() {
    let t = vec![0, 1];
    let changes = shell_diff(None, at(3, -4, 5), &t, 2);
    assert_eq!(changes.len(), 125);
    assert_eq!(changes[0], LODChange::Load(at(3, -4, 5), 0));
    for change in changes[1..27].iter() {
        match change {
            LODChange::Load(_, d) => assert_eq!(*d, 1),
            LODChange::Unload(_) => panic!("nothing to unload"),
        }
    }
    for change in changes[27..].iter() {
        match change {
            LODChange::Load(_, d) => assert_eq!(*d, 2),
            LODChange::Unload(_) => panic!("nothing to unload"),
        }
    }
    check_move(None, at(3, -4, 5), &t, 2);
}

#[test]
fn one_step_with_two_thresholds() {
    let t = vec![2, 5];
    let mut loader = SurroundingsLoader::new(8, t.clone()).unwrap();
    let first = loader.update(at(0, 0, 0));
    assert_eq!(first.len(), 17 * 17 * 17);
    let changes = loader.update(at(1, 0, 0));
    let mut loads = 0;
    let mut unloads = 0;
    for change in changes.iter() {
        match change {
            LODChange::Unload(p) => {
                unloads += 1;
                assert_eq!(chebyshev(p, &at(1, 0, 0)), 9);
                assert!(chebyshev(p, &at(0, 0, 0)) <= 8);
                assert_eq!(p.x, -8);
            }
            LODChange::Load(p, d) => {
                loads += 1;
                assert_eq!(unloads, 0);
                assert_eq!(*d as i64, chebyshev(p, &at(1, 0, 0)));
                let lod = lod_index_for_distance(*d, &t).unwrap();
                let expected = if *d <= 2 {
                    0
                } else if *d <= 5 {
                    1
                } else {
                    2
                };
                assert_eq!(lod, LODIndex(expected));
                assert_ne!(tier(&Some(at(0, 0, 0)), p, &t, 8), Some(expected));
                // The block is on the leading face of its tier, or on the
                // face just behind the trailing face of the tier inside it.
                assert!(p.x == 1 + *d || p.x == 1 - *d);
                assert!(*d == 2 || *d == 3 || *d == 5 || *d == 6 || *d == 8);
            }
        }
    }
    assert_eq!(unloads, 17 * 17);
    // Entering a tier from outside: the leading faces at distance 2, 5 and 8.
    // Falling back a tier: what was on the trailing faces at distance 2 and 5.
    assert_eq!(loads, 5 * 5 + 11 * 11 + 17 * 17 + 5 * 5 + 11 * 11);
    check_move(Some(at(0, 0, 0)), at(1, 0, 0), &t, 8);
    assert_eq!(loader.last_position(), Some(at(1, 0, 0)));
}

#[test]
fn load_distance_zero_keeps_only_the_observers_block() {
    let mut loader = SurroundingsLoader::new(0, vec![]).unwrap();
    assert_eq!(loader.update(at(4, 4, 4)), vec![LODChange::Load(at(4, 4, 4), 0)]);
    assert_eq!(
        loader.update(at(4, 5, 4)),
        vec![LODChange::Load(at(4, 5, 4), 0), LODChange::Unload(at(4, 4, 4))]
    );
}

#[test]
fn standing_still_changes_nothing() {
    let mut loader = SurroundingsLoader::new(3, vec![1]).unwrap();
    loader.update(at(9, 9, 9));
    assert_eq!(loader.update(at(9, 9, 9)), vec![]);
    assert_eq!(loader.last_position(), Some(at(9, 9, 9)));
    assert_eq!(loader.load_distance(), 3);
    assert_eq!(loader.thresholds(), &vec![1]);
}

#[test]
fn a_jump_replaces_the_whole_region() {
    let t = vec![1];
    let changes = shell_diff(Some(at(0, 0, 0)), at(100, 0, 0), &t, 2);
    assert_eq!(changes.len(), 250);
    check_move(Some(at(0, 0, 0)), at(100, 0, 0), &t, 2);
    check_move(Some(at(0, 0, 0)), at(2, -3, 1), &t, 2);
}

#[test]
fn the_edge_of_the_world_is_no_obstacle() {
    let t = vec![1];
    let corner = at(i32::MAX, i32::MIN, 0);
    let changes = shell_diff(None, corner, &t, 2);
    assert_eq!(changes.len(), 3 * 3 * 5);
    let back = shell_diff(Some(corner), at(i32::MAX - 1, i32::MIN, 0), &t, 2);
    let mut seen: HashSet<(i32, i32, i32)> = HashSet::new();
    for change in back.iter() {
        let p = change.block_position();
        assert!(seen.insert((p.x, p.y, p.z)));
    }
}

#[test]
fn a_negative_load_distance_loads_nothing() {
    assert_eq!(shell_diff(None, at(0, 0, 0), &vec![], -1), vec![]);
    assert_eq!(shell_diff(Some(at(0, 0, 0)), at(1, 0, 0), &vec![], -3), vec![]);
}

#[test]
fn no_block_is_loaded_and_unloaded_on_a_walk() {
    let t = vec![1, 3];
    let l = 4;
    let mut loader = SurroundingsLoader::new(l, t.clone()).unwrap();
    let mut resident: HashSet<(i32, i32, i32)> = HashSet::new();
    let mut pos = at(0, 0, 0);
    let mut seed: u64 = 0x2545_f491_4f6c_dd1d;
    for _ in 0..60 {
        let last = loader.last_position();
        let changes = loader.update(pos);
        let mut loaded: HashSet<(i32, i32, i32)> = HashSet::new();
        let mut unloaded: HashSet<(i32, i32, i32)> = HashSet::new();
        for change in changes.iter() {
            match change {
                LODChange::Load(p, _) => {
                    assert!(loaded.insert((p.x, p.y, p.z)));
                    resident.insert((p.x, p.y, p.z));
                }
                LODChange::Unload(p) => {
                    assert!(unloaded.insert((p.x, p.y, p.z)));
                    assert!(resident.remove(&(p.x, p.y, p.z)));
                }
            }
        }
        assert!(loaded.is_disjoint(&unloaded));
        assert_eq!(resident.len(), 9 * 9 * 9);
        for (x, y, z) in resident.iter() {
            assert!(chebyshev(&at(*x, *y, *z), &pos) <= l as i64);
        }
        check_move(last, pos, &t, l);
        seed = seed.wrapping_mul(6364136223846793005).wrapping_add(1442695040888963407);
        let step = ((seed >> 33) % 27) as i32;
        pos = at(pos.x + step % 3 - 1, pos.y + (step / 3) % 3 - 1, pos.z + step / 9 - 1);
    }
}

#[test]
fn loader_configuration_is_checked() {
    assert_eq!(SurroundingsLoader::new(8, vec![5, 2]).unwrap_err(), ConfigError::NotAscending);
    assert_eq!(SurroundingsLoader::new(8, vec![2, 2]).unwrap_err(), ConfigError::NotAscending);
    assert_eq!(SurroundingsLoader::new(8, vec![-2, 2]).unwrap_err(), ConfigError::NotAscending);
    assert_eq!(SurroundingsLoader::new(8, vec![2, 8]).unwrap_err(), ConfigError::BeyondLoadDistance);
    assert_eq!(SurroundingsLoader::new(5, vec![2, 8]).unwrap_err(), ConfigError::BeyondLoadDistance);
    assert_eq!(SurroundingsLoader::new(0, vec![0]).unwrap_err(), ConfigError::BeyondLoadDistance);
    assert_eq!(SurroundingsLoader::new(-1, vec![]).unwrap_err(), ConfigError::BeyondLoadDistance);
    assert_eq!(SurroundingsLoader::new(-1, vec![3, 1]).unwrap_err(), ConfigError::NotAscending);
    assert!(SurroundingsLoader::new(0, vec![]).is_ok());
    assert!(SurroundingsLoader::new(8, vec![2, 7]).is_ok());
}

#[test]
fn distance_is_the_largest_gap() {
    assert_eq!(at(0, 0, 0).radius_between(&at(0, 0, 0)), 0);
    assert_eq!(at(1, -7, 3).radius_between(&at(2, 2, 2)), 9);
    assert_eq!(at(2, 2, 2).radius_between(&at(1, -7, 3)), 9);
    assert_eq!(at(i32::MIN, 0, 0).radius_between(&at(i32::MAX, 0, 0)), 4294967295);
}
