//! What the changes of a move do to the set of resident blocks.

use vstd::prelude::*;
use crate::position::BlockPosition;
use crate::lod::lod_tier;
use crate::shell::{LODChange, is_shell_diff, change_for, tier_at};

verus! {

/// The blocks within `load_distance` of the observer; none before there is an observer.
pub open spec fn region(center: Option<BlockPosition>, load_distance: int) -> Set<BlockPosition> {
    Set::new(
        |p: BlockPosition|
            match center {
                Some(c) => c.distance(p) <= load_distance,
                None => false,
            },
    )
}

/// The resident blocks after the changes are carried out in order: a load
/// makes its block resident, an unload releases it.
pub open spec fn apply_changes(resident: Set<BlockPosition>, changes: Seq<LODChange>) -> Set<
    BlockPosition,
>
    decreases changes.len(),
{
    if changes.len() == 0 {
        resident
    } else {
        let rest = apply_changes(resident, changes.drop_last());
        match changes.last() {
            LODChange::Load(p, _) => rest.insert(p),
            LODChange::Unload(p) => rest.remove(p),
        }
    }
}

/// The change loads block `p`.
pub open spec fn is_load_of(change: LODChange, p: BlockPosition) -> bool {
    match change {
        LODChange::Load(q, _) => q == p,
        LODChange::Unload(_) => false,
    }
}

/// Some change among `changes` loads block `p`.
pub open spec fn loaded_by(changes: Seq<LODChange>, p: BlockPosition) -> bool {
    exists|k: int|
        0 <= k < changes.len() && is_load_of(#[trigger] changes[k], p)
}

/// Some change among `changes` unloads block `p`.
pub open spec fn unloaded_by(changes: Seq<LODChange>, p: BlockPosition) -> bool {
    exists|k: int| 0 <= k < changes.len() && #[trigger] changes[k] == LODChange::Unload(p)
}

/// No block occurs twice among `changes`.
pub open spec fn one_change_per_block(changes: Seq<LODChange>) -> bool {
    forall|j: int, k: int|
        0 <= j < k < changes.len() ==> (#[trigger] changes[j]).position() != (
        #[trigger] changes[k]).position()
}

/// Where no block occurs twice among the changes, a block is resident after
/// them exactly if one of them loads it, or it was resident and none unloads it.
pub proof fn lemma_apply_changes(
    resident: Set<BlockPosition>,
    changes: Seq<LODChange>,
    p: BlockPosition,
)
    requires
        one_change_per_block(changes),
    ensures
        apply_changes(resident, changes).contains(p) <==> loaded_by(changes, p) || (
        resident.contains(p) && !unloaded_by(changes, p)),
    decreases changes.len(),
{
    if changes.len() > 0 {
        let front = changes.drop_last();
        let n = changes.len() - 1;
        assert forall|j: int, k: int| 0 <= j < k < front.len() implies (#[trigger] front[j]).position()
            != (#[trigger] front[k]).position() by {
            assert(front[j] == changes[j] && front[k] == changes[k]);
        }
        lemma_apply_changes(resident, front, p);
        if loaded_by(front, p) {
            let k = choose|k: int|
                0 <= k < front.len() && is_load_of(#[trigger] front[k], p);
            assert(changes[k] == front[k]);
            assert(changes[k].position() == p);
            assert(changes[n].position() != p);
        }
        if unloaded_by(front, p) {
            let k = choose|k: int| 0 <= k < front.len() && #[trigger] front[k] == LODChange::Unload(p);
            assert(changes[k] == front[k]);
            assert(changes[k].position() == p);
            assert(changes[n].position() != p);
        }
        if loaded_by(changes, p) {
            let k = choose|k: int|
                0 <= k < changes.len() && is_load_of(#[trigger] changes[k], p);
            if k < n {
                assert(front[k] == changes[k]);
            }
        }
        if unloaded_by(changes, p) {
            let k = choose|k: int|
                0 <= k < changes.len() && #[trigger] changes[k] == LODChange::Unload(p);
            if k < n {
                assert(front[k] == changes[k]);
            }
        }
        match changes[n] {
            LODChange::Load(q, _) => {
                if q == p {
                    assert(changes[n].position() == p);
                }
            },
            LODChange::Unload(q) => {
                if q == p {
                    assert(changes[n] == LODChange::Unload(p));
                }
            },
        }
    }
}

/// Where the blocks within the load distance of the last position were
/// resident (none before the first move), the changes of a move leave
/// exactly the blocks within the load distance of the new position resident.
pub proof fn lemma_resident_follows_observer(
    changes: Seq<LODChange>,
    last: Option<BlockPosition>,
    cur: BlockPosition,
    thresholds: Seq<i32>,
    load_distance: int,
)
    requires
        is_shell_diff(changes, last, cur, thresholds, load_distance),
    ensures
        apply_changes(region(last, load_distance), changes) == region(Some(cur), load_distance),
{
    let before = region(last, load_distance);
    let after = apply_changes(before, changes);
    assert forall|p: BlockPosition| after.contains(p) <==> region(
        Some(cur),
        load_distance,
    ).contains(p) by {
        lemma_apply_changes(before, changes, p);
        let c = change_for(last, cur, thresholds, load_distance, p);
        if c.is_some() {
            assert(changes.contains(c.unwrap()));
            let k = choose|k: int| 0 <= k < changes.len() && changes[k] == c.unwrap();
            assert(changes[k].position() == p);
        }
        if loaded_by(changes, p) {
            let k = choose|k: int|
                0 <= k < changes.len() && is_load_of(#[trigger] changes[k], p);
            assert(changes[k].position() == p);
        }
        if unloaded_by(changes, p) {
            let k = choose|k: int|
                0 <= k < changes.len() && #[trigger] changes[k] == LODChange::Unload(p);
            assert(changes[k].position() == p);
        }
    }
    assert(after =~= region(Some(cur), load_distance));
}

/// No move asks to load and to unload the same block.
pub proof fn lemma_never_load_and_unload(
    changes: Seq<LODChange>,
    last: Option<BlockPosition>,
    cur: BlockPosition,
    thresholds: Seq<i32>,
    load_distance: int,
    p: BlockPosition,
)
    requires
        is_shell_diff(changes, last, cur, thresholds, load_distance),
    ensures
        !(loaded_by(changes, p) && unloaded_by(changes, p)),
{
    if loaded_by(changes, p) && unloaded_by(changes, p) {
        let j = choose|k: int|
            0 <= k < changes.len() && is_load_of(#[trigger] changes[k], p);
        let k = choose|k: int| 0 <= k < changes.len() && #[trigger] changes[k] == LODChange::Unload(p);
        assert(changes[j].position() == p);
        assert(changes[k].position() == p);
    }
}

/// The first move loads every block within the load distance and unloads none.
pub proof fn lemma_first_move_loads_region(
    changes: Seq<LODChange>,
    cur: BlockPosition,
    thresholds: Seq<i32>,
    load_distance: int,
    p: BlockPosition,
)
    requires
        is_shell_diff(changes, None, cur, thresholds, load_distance),
    ensures
        !unloaded_by(changes, p),
        loaded_by(changes, p) <==> cur.distance(p) <= load_distance,
{
    if unloaded_by(changes, p) {
        let k = choose|k: int| 0 <= k < changes.len() && #[trigger] changes[k] == LODChange::Unload(p);
        assert(changes[k].position() == p);
    }
    if loaded_by(changes, p) {
        let k = choose|k: int|
            0 <= k < changes.len() && is_load_of(#[trigger] changes[k], p);
        assert(changes[k].position() == p);
    }
    if cur.distance(p) <= load_distance {
        let c = change_for(None, cur, thresholds, load_distance, p);
        assert(c.is_some());
        assert(changes.contains(c.unwrap()));
        let k = choose|k: int| 0 <= k < changes.len() && changes[k] == c.unwrap();
        assert(is_load_of(changes[k], p));
    }
}

/// A move loads a block only into a tier that the block was not resident in
/// before the move, and that tier is the one of its new distance.
pub proof fn lemma_load_changes_tier(
    changes: Seq<LODChange>,
    last: Option<BlockPosition>,
    cur: BlockPosition,
    thresholds: Seq<i32>,
    load_distance: int,
    p: BlockPosition,
    distance: i32,
)
    requires
        load_distance <= i32::MAX,
        is_shell_diff(changes, last, cur, thresholds, load_distance),
        changes.contains(LODChange::Load(p, distance)),
    ensures
        distance == cur.distance(p),
        tier_at(Some(cur), p, thresholds, load_distance) == Some(
            lod_tier(thresholds, distance as int),
        ),
        tier_at(last, p, thresholds, load_distance) != Some(lod_tier(thresholds, distance as int)),
{
    let k = choose|k: int| 0 <= k < changes.len() && changes[k] == LODChange::Load(p, distance);
    assert(changes[k].position() == p);
}

/// A block for which a move asks no change is in the tier that it was in, or
/// beyond the load distance as it was.
pub proof fn lemma_no_change_keeps_tier(
    changes: Seq<LODChange>,
    last: Option<BlockPosition>,
    cur: BlockPosition,
    thresholds: Seq<i32>,
    load_distance: int,
    p: BlockPosition,
)
    requires
        is_shell_diff(changes, last, cur, thresholds, load_distance),
        !loaded_by(changes, p),
        !unloaded_by(changes, p),
    ensures
        tier_at(Some(cur), p, thresholds, load_distance) == tier_at(
            last,
            p,
            thresholds,
            load_distance,
        ),
{
    let c = change_for(last, cur, thresholds, load_distance, p);
    if c.is_some() {
        assert(changes.contains(c.unwrap()));
        let k = choose|k: int| 0 <= k < changes.len() && changes[k] == c.unwrap();
        assert(is_load_of(changes[k], p) || changes[k] == LODChange::Unload(p));
    }
}

/// Where the observer was before move `i` of a walk; nowhere before the first.
pub open spec fn position_before(moves: Seq<BlockPosition>, i: int) -> Option<BlockPosition> {
    if 0 < i <= moves.len() {
        Some(moves[i - 1])
    } else {
        None
    }
}

/// `diffs` holds, for each move of the walk in turn, changes that the move asks for.
pub open spec fn is_walk_diff(
    diffs: Seq<Seq<LODChange>>,
    moves: Seq<BlockPosition>,
    thresholds: Seq<i32>,
    load_distance: int,
) -> bool {
    &&& diffs.len() == moves.len()
    &&& forall|i: int|
        0 <= i < moves.len() ==> is_shell_diff(
            #[trigger] diffs[i],
            position_before(moves, i),
            moves[i],
            thresholds,
            load_distance,
        )
}

/// The resident blocks after the changes of every move of a walk, from none.
pub open spec fn resident_after_walk(diffs: Seq<Seq<LODChange>>) -> Set<BlockPosition>
    decreases diffs.len(),
{
    if diffs.len() == 0 {
        Set::empty()
    } else {
        apply_changes(resident_after_walk(diffs.drop_last()), diffs.last())
    }
}

/// After any walk, the resident blocks are exactly the blocks within the load
/// distance of the observer's final position.
pub proof fn lemma_resident_after_walk(
    diffs: Seq<Seq<LODChange>>,
    moves: Seq<BlockPosition>,
    thresholds: Seq<i32>,
    load_distance: int,
)
    requires
        is_walk_diff(diffs, moves, thresholds, load_distance),
    ensures
        resident_after_walk(diffs) == region(
            position_before(moves, moves.len() as int),
            load_distance,
        ),
    decreases diffs.len(),
{
    if diffs.len() == 0 {
        assert(region(None, load_distance) =~= Set::empty());
    } else {
        let n = moves.len() - 1;
        let front = moves.drop_last();
        assert forall|i: int| 0 <= i < front.len() implies is_shell_diff(
            #[trigger] diffs.drop_last()[i],
            position_before(front, i),
            front[i],
            thresholds,
            load_distance,
        ) by {
            assert(diffs.drop_last()[i] == diffs[i]);
            assert(position_before(front, i) == position_before(moves, i));
        }
        lemma_resident_after_walk(diffs.drop_last(), front, thresholds, load_distance);
        assert(position_before(front, front.len() as int) == position_before(moves, n));
        assert(is_shell_diff(
            diffs[n],
            position_before(moves, n),
            moves[n],
            thresholds,
            load_distance,
        ));
        lemma_resident_follows_observer(
            diffs[n],
            position_before(moves, n),
            moves[n],
            thresholds,
            load_distance,
        );
    }
}

} // verus!
