//! The shell differ: which blocks change tier, enter or leave the loaded
//! region when the observer moves.

use vstd::prelude::*;
use crate::position::BlockPosition;
use crate::lod::{lod_tier, tier_index, lemma_tier_from};

verus! {

/// One change that an observer's move asks for.
#[derive(Clone, Copy, Debug, PartialEq, Eq, Structural)]
pub enum LODChange {
    /// Load the block, which now lies at this distance from the observer.
    Load(BlockPosition, i32),
    /// Release the block.
    Unload(BlockPosition),
}

impl LODChange {
    /// The block that the change is about.
    pub open spec fn position(self) -> BlockPosition {
        match self {
            LODChange::Load(p, _) => p,
            LODChange::Unload(p) => p,
        }
    }

    /// The block that the change is about.
    pub fn block_position(&self) -> (p: BlockPosition)
        ensures
            p == self.position(),
    {
        match self {
            LODChange::Load(p, _) => *p,
            LODChange::Unload(p) => *p,
        }
    }
}

/// The tier in which block `p` is resident for an observer at `center`:
/// none where there is no observer yet or the block lies beyond the load
/// distance, else the tier of its distance.
pub open spec fn tier_at(
    center: Option<BlockPosition>,
    p: BlockPosition,
    thresholds: Seq<i32>,
    load_distance: int,
) -> Option<int> {
    match center {
        None => None,
        Some(c) => if c.distance(p) <= load_distance {
            Some(lod_tier(thresholds, c.distance(p)))
        } else {
            None
        },
    }
}

/// The move from `last` to `cur` brings block `p` into a tier that it was not in.
pub open spec fn loads(
    last: Option<BlockPosition>,
    cur: BlockPosition,
    thresholds: Seq<i32>,
    load_distance: int,
    p: BlockPosition,
) -> bool {
    tier_at(Some(cur), p, thresholds, load_distance).is_some() && tier_at(
        Some(cur),
        p,
        thresholds,
        load_distance,
    ) != tier_at(last, p, thresholds, load_distance)
}

/// The move from `last` to `cur` takes block `p` out of the loaded region.
pub open spec fn unloads(
    last: Option<BlockPosition>,
    cur: BlockPosition,
    thresholds: Seq<i32>,
    load_distance: int,
    p: BlockPosition,
) -> bool {
    tier_at(last, p, thresholds, load_distance).is_some() && tier_at(
        Some(cur),
        p,
        thresholds,
        load_distance,
    ).is_none()
}

/// The place of a change in the order of delivery: loads by their tier,
/// finest first, and unloads after every load.
pub open spec fn delivery_rank(change: LODChange, thresholds: Seq<i32>) -> int {
    match change {
        LODChange::Load(_, d) => lod_tier(thresholds, d as int),
        LODChange::Unload(_) => thresholds.len() as int + 1,
    }
}

/// The change that the move asks for block `p`, if any.
pub open spec fn change_for(
    last: Option<BlockPosition>,
    cur: BlockPosition,
    thresholds: Seq<i32>,
    load_distance: int,
    p: BlockPosition,
) -> Option<LODChange> {
    if loads(last, cur, thresholds, load_distance, p) {
        Some(LODChange::Load(p, cur.distance(p) as i32))
    } else if unloads(last, cur, thresholds, load_distance, p) {
        Some(LODChange::Unload(p))
    } else {
        None
    }
}

/// `changes` is what the move from `last` to `cur` asks for: each change is
/// the one that the move asks for its block, every block for which the move
/// asks a change has it there, no block occurs twice, and the changes stand
/// in the order of delivery.
pub open spec fn is_shell_diff(
    changes: Seq<LODChange>,
    last: Option<BlockPosition>,
    cur: BlockPosition,
    thresholds: Seq<i32>,
    load_distance: int,
) -> bool {
    &&& forall|k: int|
        0 <= k < changes.len() ==> change_for(
            last,
            cur,
            thresholds,
            load_distance,
            (#[trigger] changes[k]).position(),
        ) == Some(changes[k])
    &&& forall|p: BlockPosition| #[trigger]
        change_for(last, cur, thresholds, load_distance, p).is_some() ==> changes.contains(
            change_for(last, cur, thresholds, load_distance, p).unwrap(),
        )
    &&& forall|j: int, k: int|
        0 <= j < k < changes.len() ==> (#[trigger] changes[j]).position() != (
        #[trigger] changes[k]).position()
    &&& forall|j: int, k: int|
        0 <= j < k < changes.len() ==> delivery_rank(#[trigger] changes[j], thresholds)
            <= delivery_rank(#[trigger] changes[k], thresholds)
}

/// What one pass over a cube picks: with a tier, the blocks that the move
/// brings into that tier; without one, the blocks that it takes out of the
/// loaded region.
spec fn picked(
    last: Option<BlockPosition>,
    cur: BlockPosition,
    thresholds: Seq<i32>,
    load_distance: int,
    want: Option<usize>,
    p: BlockPosition,
) -> bool {
    match want {
        Some(t) => loads(last, cur, thresholds, load_distance, p) && tier_at(
            Some(cur),
            p,
            thresholds,
            load_distance,
        ) == Some(t as int),
        None => unloads(last, cur, thresholds, load_distance, p),
    }
}

/// Block `p` comes before the point `(x, y, z)` in the order of a pass.
spec fn passed(p: BlockPosition, x: int, y: int, z: int) -> bool {
    p.x < x || (p.x == x && (p.y < y || (p.y == y && p.z < z)))
}

/// The tier of `p` for an observer at `center`, where it is resident.
fn resident_tier(center: &Option<BlockPosition>, p: &BlockPosition, thresholds: &Vec<i32>, load_distance: i32) -> (r: Option<usize>)
    ensures
        match tier_at(*center, *p, thresholds@, load_distance as int) {
            Some(t) => r == Some(t as usize) && 0 <= t <= thresholds.len(),
            None => r.is_none(),
        },
{
    match center {
        None => None,
        Some(c) => {
            let d: i64 = c.radius_between(p);
            if d <= load_distance as i64 {
                proof {
                    lemma_tier_from(thresholds@, d as int, 0);
                }
                Some(tier_index(d, thresholds))
            } else {
                None
            }
        },
    }
}

/// The change for block `p` in a pass, if the pass picks it.
fn pick(
    last: &Option<BlockPosition>,
    cur: &BlockPosition,
    thresholds: &Vec<i32>,
    load_distance: i32,
    want: Option<usize>,
    p: BlockPosition,
) -> (r: Option<LODChange>)
    ensures
        picked(*last, *cur, thresholds@, load_distance as int, want, p) ==> r == change_for(
            *last,
            *cur,
            thresholds@,
            load_distance as int,
            p,
        ) && r.is_some(),
        !picked(*last, *cur, thresholds@, load_distance as int, want, p) ==> r.is_none(),
{
    let now: Option<usize> = resident_tier(&Some(*cur), &p, thresholds, load_distance);
    let before: Option<usize> = resident_tier(last, &p, thresholds, load_distance);
    match want {
        Some(t) => match now {
            Some(tier) => {
                let same: bool = match before {
                    Some(old_tier) => old_tier == tier,
                    None => false,
                };
                if tier == t && !same {
                    let d: i64 = cur.radius_between(&p);
                    Some(LODChange::Load(p, d as i32))
                } else {
                    None
                }
            },
            None => None,
        },
        None => if before.is_some() && now.is_none() {
            Some(LODChange::Unload(p))
        } else {
            None
        },
    }
}

/// The lower end of a pass along one axis.
fn low_end(c: i32, radius: i32) -> (lo: i64)
    ensures
        lo == (if c - radius < i32::MIN { i32::MIN as int } else { c - radius }),
{
    let lo: i64 = c as i64 - radius as i64;
    if lo < i32::MIN as i64 {
        i32::MIN as i64
    } else {
        lo
    }
}

/// The upper end of a pass along one axis.
fn high_end(c: i32, radius: i32) -> (hi: i64)
    ensures
        hi == (if c + radius > i32::MAX { i32::MAX as int } else { c + radius }),
{
    let hi: i64 = c as i64 + radius as i64;
    if hi > i32::MAX as i64 {
        i32::MAX as i64
    } else {
        hi
    }
}

/// What holds of the changes gathered by a pass that has come to `(x, y, z)`:
/// the changes that were there stay, each new one is the change of a picked
/// block that the pass has gone by, and no block occurs twice among them.
spec fn gathered(
    res: Seq<LODChange>,
    out: Seq<LODChange>,
    last: Option<BlockPosition>,
    cur: BlockPosition,
    thresholds: Seq<i32>,
    load_distance: int,
    want: Option<usize>,
    x: int,
    y: int,
    z: int,
) -> bool {
    &&& out.len() <= res.len()
    &&& forall|k: int| 0 <= k < out.len() ==> #[trigger] res[k] == out[k]
    &&& forall|k: int|
        out.len() <= k < res.len() ==> {
            &&& picked(last, cur, thresholds, load_distance, want, (#[trigger] res[k]).position())
            &&& passed(res[k].position(), x, y, z)
            &&& change_for(last, cur, thresholds, load_distance, res[k].position()) == Some(
                res[k],
            )
        }
    &&& forall|j: int, k: int|
        out.len() <= j < k < res.len() ==> (#[trigger] res[j]).position() != (
        #[trigger] res[k]).position()
}

/// Every picked block that the pass has gone by has its change among `res`.
spec fn covered(
    res: Seq<LODChange>,
    last: Option<BlockPosition>,
    cur: BlockPosition,
    thresholds: Seq<i32>,
    load_distance: int,
    want: Option<usize>,
    x: int,
    y: int,
    z: int,
) -> bool {
    forall|p: BlockPosition| #[trigger]
        picked(last, cur, thresholds, load_distance, want, p) && passed(p, x, y, z)
            ==> res.contains(change_for(last, cur, thresholds, load_distance, p).unwrap())
}

/// One pass over the cube of `radius` around `center`, in the order of the
/// coordinates: appends to `out` the change of every block that the pass picks.
fn pass(
    last: &Option<BlockPosition>,
    cur: &BlockPosition,
    thresholds: &Vec<i32>,
    load_distance: i32,
    want: Option<usize>,
    center: &BlockPosition,
    radius: i32,
    out: Vec<LODChange>,
) -> (res: Vec<LODChange>)
    requires
        forall|p: BlockPosition| #[trigger]
            picked(*last, *cur, thresholds@, load_distance as int, want, p) ==> center.distance(
                p,
            ) <= radius,
    ensures
        gathered(
            res@,
            out@,
            *last,
            *cur,
            thresholds@,
            load_distance as int,
            want,
            i32::MAX + 1,
            0,
            0,
        ),
        forall|p: BlockPosition| #[trigger]
            picked(*last, *cur, thresholds@, load_distance as int, want, p) ==> res@.contains(
                change_for(*last, *cur, thresholds@, load_distance as int, p).unwrap(),
            ),
{
    let ghost l = load_distance as int;
    if radius < 0 {
        return out;
    }
    let x_hi: i64 = high_end(center.x, radius);
    let y_lo: i64 = low_end(center.y, radius);
    let y_hi: i64 = high_end(center.y, radius);
    let z_lo: i64 = low_end(center.z, radius);
    let z_hi: i64 = high_end(center.z, radius);
    let mut res: Vec<LODChange> = out;
    let mut x: i64 = low_end(center.x, radius);
    while x <= x_hi
        invariant
            i32::MIN <= x <= i32::MAX + 1,
            x_hi == (if center.x + radius > i32::MAX { i32::MAX as int } else { center.x + radius }),
            y_lo == (if center.y - radius < i32::MIN { i32::MIN as int } else { center.y - radius }),
            y_hi == (if center.y + radius > i32::MAX { i32::MAX as int } else { center.y + radius }),
            z_lo == (if center.z - radius < i32::MIN { i32::MIN as int } else { center.z - radius }),
            z_hi == (if center.z + radius > i32::MAX { i32::MAX as int } else { center.z + radius }),
            radius >= 0,
            l == load_distance as int,
            x >= center.x - radius,
            forall|p: BlockPosition| #[trigger]
                picked(*last, *cur, thresholds@, l, want, p) ==> center.distance(p) <= radius,
            gathered(res@, out@, *last, *cur, thresholds@, l, want, x as int, i32::MIN as int, i32::MIN as int),
            covered(res@, *last, *cur, thresholds@, l, want, x as int, i32::MIN as int, i32::MIN as int),
        decreases x_hi + 1 - x,
    {
        let mut y: i64 = y_lo;
        while y <= y_hi
            invariant
                i32::MIN <= x <= i32::MAX,
                i32::MIN <= y <= i32::MAX + 1,
                radius >= 0,
                l == load_distance as int,
                y >= center.y - radius,
                y_hi == (if center.y + radius > i32::MAX { i32::MAX as int } else { center.y + radius }),
                z_lo == (if center.z - radius < i32::MIN { i32::MIN as int } else { center.z - radius }),
                z_hi == (if center.z + radius > i32::MAX { i32::MAX as int } else { center.z + radius }),
                forall|p: BlockPosition| #[trigger]
                    picked(*last, *cur, thresholds@, l, want, p) ==> center.distance(p) <= radius,
                gathered(res@, out@, *last, *cur, thresholds@, l, want, x as int, y as int, i32::MIN as int),
                covered(res@, *last, *cur, thresholds@, l, want, x as int, y as int, i32::MIN as int),
            decreases y_hi + 1 - y,
        {
            let mut z: i64 = z_lo;
            while z <= z_hi
                invariant
                    i32::MIN <= x <= i32::MAX,
                    i32::MIN <= y <= i32::MAX,
                    i32::MIN <= z <= i32::MAX + 1,
                    radius >= 0,
                    l == load_distance as int,
                    z >= center.z - radius,
                    z_hi == (if center.z + radius > i32::MAX { i32::MAX as int } else { center.z + radius }),
                    forall|p: BlockPosition| #[trigger]
                        picked(*last, *cur, thresholds@, l, want, p) ==> center.distance(p) <= radius,
                    gathered(res@, out@, *last, *cur, thresholds@, l, want, x as int, y as int, z as int),
                    covered(res@, *last, *cur, thresholds@, l, want, x as int, y as int, z as int),
                decreases z_hi + 1 - z,
            {
                let p = BlockPosition { x: x as i32, y: y as i32, z: z as i32 };
                let ghost before = res@;
                let found: Option<LODChange> = pick(last, cur, thresholds, load_distance, want, p);
                match found {
                    Some(change) => {
                        res.push(change);
                    },
                    None => {},
                }
                proof {
                    assert forall|q: BlockPosition| #[trigger]
                        picked(*last, *cur, thresholds@, l, want, q) && passed(
                            q,
                            x as int,
                            y as int,
                            z + 1,
                        ) implies res@.contains(
                        change_for(*last, *cur, thresholds@, l, q).unwrap(),
                    ) by {
                        let c = change_for(*last, *cur, thresholds@, l, q).unwrap();
                        if passed(q, x as int, y as int, z as int) {
                            assert(before.contains(c));
                            let k = choose|k: int| 0 <= k < before.len() && before[k] == c;
                            assert(res@[k] == c);
                        } else {
                            assert(q == p);
                            assert(res@[res@.len() - 1] == c);
                        }
                    }
                }
                z = z + 1;
            }
            y = y + 1;
        }
        x = x + 1;
    }
    res
}

/// What holds of the changes once every pass of a rank below `rank` is done.
spec fn diffed_below(
    changes: Seq<LODChange>,
    last: Option<BlockPosition>,
    cur: BlockPosition,
    thresholds: Seq<i32>,
    load_distance: int,
    rank: int,
) -> bool {
    &&& forall|k: int|
        0 <= k < changes.len() ==> {
            &&& change_for(
                last,
                cur,
                thresholds,
                load_distance,
                (#[trigger] changes[k]).position(),
            ) == Some(changes[k])
            &&& delivery_rank(changes[k], thresholds) < rank
        }
    &&& forall|p: BlockPosition| #[trigger]
        change_for(last, cur, thresholds, load_distance, p).is_some() && delivery_rank(
            change_for(last, cur, thresholds, load_distance, p).unwrap(),
            thresholds,
        ) < rank ==> changes.contains(change_for(last, cur, thresholds, load_distance, p).unwrap())
    &&& forall|j: int, k: int|
        0 <= j < k < changes.len() ==> (#[trigger] changes[j]).position() != (
        #[trigger] changes[k]).position()
    &&& forall|j: int, k: int|
        0 <= j < k < changes.len() ==> delivery_rank(#[trigger] changes[j], thresholds)
            <= delivery_rank(#[trigger] changes[k], thresholds)
}

/// A pass of rank `rank` after every pass below it leaves every pass up to it done.
proof fn lemma_pass_extends(
    res: Seq<LODChange>,
    out: Seq<LODChange>,
    last: Option<BlockPosition>,
    cur: BlockPosition,
    thresholds: Seq<i32>,
    load_distance: int,
    want: Option<usize>,
    rank: int,
)
    requires
        load_distance <= i32::MAX,
        match want {
            Some(t) => rank == t && t <= thresholds.len(),
            None => rank == thresholds.len() + 1,
        },
        diffed_below(out, last, cur, thresholds, load_distance, rank),
        gathered(res, out, last, cur, thresholds, load_distance, want, i32::MAX + 1, 0, 0),
        forall|p: BlockPosition| #[trigger]
            picked(last, cur, thresholds, load_distance, want, p) ==> res.contains(
                change_for(last, cur, thresholds, load_distance, p).unwrap(),
            ),
    ensures
        diffed_below(res, last, cur, thresholds, load_distance, rank + 1),
{
    assert forall|k: int| out.len() <= k < res.len() implies delivery_rank(
        #[trigger] res[k],
        thresholds,
    ) == rank by {
        let p = res[k].position();
        assert(picked(last, cur, thresholds, load_distance, want, p));
        lemma_tier_from(thresholds, cur.distance(p), 0);
    }
    assert forall|p: BlockPosition| #[trigger]
        change_for(last, cur, thresholds, load_distance, p).is_some() && delivery_rank(
            change_for(last, cur, thresholds, load_distance, p).unwrap(),
            thresholds,
        ) < rank + 1 implies res.contains(
        change_for(last, cur, thresholds, load_distance, p).unwrap(),
    ) by {
        let c = change_for(last, cur, thresholds, load_distance, p).unwrap();
        lemma_tier_from(thresholds, cur.distance(p), 0);
        if delivery_rank(c, thresholds) < rank {
            assert(out.contains(c));
            let k = choose|k: int| 0 <= k < out.len() && out[k] == c;
            assert(res[k] == c);
        } else {
            assert(picked(last, cur, thresholds, load_distance, want, p));
        }
    }
    assert forall|j: int, k: int| 0 <= j < k < res.len() implies (#[trigger] res[j]).position() != (
    #[trigger] res[k]).position() && delivery_rank(res[j], thresholds) <= delivery_rank(
        res[k],
        thresholds,
    ) by {
        if j < out.len() {
            assert(res[j] == out[j]);
        }
        if k < out.len() {
            assert(res[k] == out[k]);
        }
    }
    assert forall|k: int| 0 <= k < res.len() implies change_for(
        last,
        cur,
        thresholds,
        load_distance,
        (#[trigger] res[k]).position(),
    ) == Some(res[k]) && delivery_rank(res[k], thresholds) < rank + 1 by {
        if k < out.len() {
            assert(res[k] == out[k]);
        }
    }
}

/// The changes that an observer's move from `last` to `cur` asks for, in the
/// order of delivery: for each tier, finest first, the blocks within the load
/// distance of `cur` that the move brings into that tier, each with its
/// distance from `cur`; then the blocks within the load distance of `last`
/// that lie beyond it from `cur`. Before the first move there is no `last`,
/// and every block within the load distance is loaded.
pub fn shell_diff(
    last: Option<BlockPosition>,
    cur: BlockPosition,
    thresholds: &Vec<i32>,
    load_distance: i32,
) -> (changes: Vec<LODChange>)
    ensures
        is_shell_diff(changes@, last, cur, thresholds@, load_distance as int),
{
    let tiers: usize = thresholds.len();
    let mut changes: Vec<LODChange> = Vec::new();
    match last {
        Some(center) => {
            if center == cur {
                return changes;
            }
        },
        None => {},
    }
    let mut t: usize = 0;
    proof {
        assert forall|p: BlockPosition| #[trigger]
            change_for(last, cur, thresholds@, load_distance as int, p).is_some() implies delivery_rank(
            change_for(last, cur, thresholds@, load_distance as int, p).unwrap(),
            thresholds@,
        ) >= 0 by {
            lemma_tier_from(thresholds@, cur.distance(p), 0);
        }
    }
    loop
        invariant_except_break
            diffed_below(changes@, last, cur, thresholds@, load_distance as int, t as int),
        invariant
            t <= tiers,
            tiers == thresholds.len(),
        ensures
            diffed_below(changes@, last, cur, thresholds@, load_distance as int, tiers + 1),
        decreases tiers - t,
    {
        let radius: i32 = if t < tiers && thresholds[t] < load_distance {
            thresholds[t]
        } else {
            load_distance
        };
        proof {
            assert forall|p: BlockPosition| #[trigger]
                picked(
                    last,
                    cur,
                    thresholds@,
                    load_distance as int,
                    Some(t),
                    p,
                ) implies cur.distance(p) <= radius by {
                lemma_tier_from(thresholds@, cur.distance(p), 0);
            }
        }
        let ghost before = changes@;
        changes = pass(&last, &cur, thresholds, load_distance, Some(t), &cur, radius, changes);
        proof {
            lemma_pass_extends(
                changes@,
                before,
                last,
                cur,
                thresholds@,
                load_distance as int,
                Some(t),
                t as int,
            );
        }
        if t == tiers {
            break ;
        }
        t = t + 1;
    }
    match last {
        Some(center) => {
            let ghost before = changes@;
            changes = pass(&last, &cur, thresholds, load_distance, None, &center, load_distance, changes);
            proof {
                lemma_pass_extends(
                    changes@,
                    before,
                    last,
                    cur,
                    thresholds@,
                    load_distance as int,
                    None,
                    tiers as int + 1,
                );
            }
        },
        None => {},
    }
    proof {
        assert forall|p: BlockPosition| #[trigger]
            change_for(last, cur, thresholds@, load_distance as int, p).is_some() implies delivery_rank(
            change_for(last, cur, thresholds@, load_distance as int, p).unwrap(),
            thresholds@,
        ) < tiers + 2 && (last.is_none() ==> delivery_rank(
            change_for(last, cur, thresholds@, load_distance as int, p).unwrap(),
            thresholds@,
        ) < tiers + 1) by {
            lemma_tier_from(thresholds@, cur.distance(p), 0);
        }
    }
    changes
}

} // verus!
