//! Level-of-detail policy: which tier a distance falls in, and how far a
//! polygon budget reaches.

use vstd::prelude::*;

verus! {

/// One of a finite, ascending sequence of detail tiers. Tier 0 is the finest.
#[derive(Clone, Copy, Debug, PartialEq, Eq, Structural, Hash)]
pub struct LODIndex(pub u32);

/// Why a tier table is refused.
#[derive(Clone, Copy, Debug, PartialEq, Eq, Structural)]
pub enum ConfigError {
    /// There is not exactly one quality factor more than there are thresholds.
    TierCount,
    /// The thresholds start below zero or do not strictly ascend.
    NotAscending,
    /// A quality factor is zero.
    ZeroQuality,
    /// A threshold does not lie below the load distance, or the load distance is negative.
    BeyondLoadDistance,
}

/// Why a tier lookup is refused.
#[derive(Clone, Copy, Debug, PartialEq, Eq, Structural)]
pub enum LodError {
    /// The distance is negative, or the tier has no index.
    InvalidArgument,
}

/// The thresholds start at zero or above and strictly ascend.
pub open spec fn ascending(thresholds: Seq<i32>) -> bool {
    &&& thresholds.len() > 0 ==> thresholds[0] >= 0
    &&& forall|i: int, j: int| 0 <= i < j < thresholds.len() ==> thresholds[i] < thresholds[j]
}

/// Every quality factor is positive.
pub open spec fn all_positive(quality: Seq<u32>) -> bool {
    forall|i: int| 0 <= i < quality.len() ==> quality[i] > 0
}

/// What is wrong with a tier table, if anything: the first of the tier count,
/// the thresholds' order and the quality factors.
pub open spec fn tier_fault(thresholds: Seq<i32>, quality: Seq<u32>) -> Option<ConfigError> {
    if quality.len() != thresholds.len() + 1 {
        Some(ConfigError::TierCount)
    } else if !ascending(thresholds) {
        Some(ConfigError::NotAscending)
    } else if !all_positive(quality) {
        Some(ConfigError::ZeroQuality)
    } else {
        None
    }
}

/// The first index at or after `from` whose threshold reaches `distance`, or
/// the number of thresholds where none does.
pub open spec fn tier_from(thresholds: Seq<i32>, distance: int, from: int) -> int
    decreases thresholds.len() - from,
{
    if from < 0 || from >= thresholds.len() {
        thresholds.len() as int
    } else if thresholds[from] >= distance {
        from
    } else {
        tier_from(thresholds, distance, from + 1)
    }
}

/// The tier of a distance: the smallest index whose threshold reaches it, or
/// the number of thresholds (the coarsest tier) where none does.
pub open spec fn lod_tier(thresholds: Seq<i32>, distance: int) -> int {
    tier_from(thresholds, distance, 0)
}

/// `tier_from` yields an index in range before which no threshold reaches the
/// distance, and at which one does unless it is the coarsest tier.
pub proof fn lemma_tier_from(thresholds: Seq<i32>, distance: int, from: int)
    requires
        0 <= from <= thresholds.len(),
    ensures
        from <= tier_from(thresholds, distance, from) <= thresholds.len(),
        forall|j: int|
            from <= j < tier_from(thresholds, distance, from) ==> thresholds[j] < distance,
        tier_from(thresholds, distance, from) < thresholds.len() ==> thresholds[tier_from(
            thresholds,
            distance,
            from,
        )] >= distance,
    decreases thresholds.len() - from,
{
    if from < thresholds.len() && thresholds[from] < distance {
        lemma_tier_from(thresholds, distance, from + 1);
    }
}

/// The tier is the only index with no reaching threshold before it and a
/// reaching threshold at it.
pub proof fn lemma_tier_is(thresholds: Seq<i32>, distance: int, i: int)
    requires
        0 <= i <= thresholds.len(),
        forall|j: int| 0 <= j < i ==> thresholds[j] < distance,
        i < thresholds.len() ==> thresholds[i] >= distance,
    ensures
        lod_tier(thresholds, distance) == i,
{
    lemma_tier_from(thresholds, distance, 0);
}

/// The tier never falls as the distance grows.
pub proof fn lemma_tier_monotonic(thresholds: Seq<i32>, near: int, far: int)
    requires
        near <= far,
    ensures
        lod_tier(thresholds, near) <= lod_tier(thresholds, far),
{
    lemma_tier_from(thresholds, near, 0);
    lemma_tier_from(thresholds, far, 0);
}

/// With thresholds that start at zero or above, distance zero is in the finest tier.
pub proof fn lemma_tier_of_zero(thresholds: Seq<i32>)
    requires
        thresholds.len() > 0 ==> thresholds[0] >= 0,
    ensures
        lod_tier(thresholds, 0) == 0,
{
}

/// `num::cast` from `usize` to `u32`: the same number where it fits in a
/// `u32`, and nothing where it does not.
#[verifier::external_body]
fn cast_to_u32(n: usize) -> (r: Option<u32>)
    ensures
        n <= u32::MAX ==> r == Some(n as u32),
        n > u32::MAX ==> r.is_none(),
{
    num::cast(n)
}

/// The tier of `distance` under `thresholds`. A negative distance is refused,
/// and so is a tier too large to index.
pub fn lod_index_for_distance(distance: i32, thresholds: &Vec<i32>) -> (r: Result<LODIndex, LodError>)
    ensures
        distance < 0 || lod_tier(thresholds@, distance as int) > u32::MAX ==> r == Err::<
            LODIndex,
            LodError,
        >(LodError::InvalidArgument),
        distance >= 0 && lod_tier(thresholds@, distance as int) <= u32::MAX ==> r.is_ok()
            && r.unwrap().0 == lod_tier(thresholds@, distance as int),
{
    if distance < 0 {
        return Err(LodError::InvalidArgument);
    }
    let lod: usize = tier_index(distance as i64, thresholds);
    match cast_to_u32(lod) {
        Some(index) => Ok(LODIndex(index)),
        None => Err(LodError::InvalidArgument),
    }
}

/// The tier of `distance` as a position in `thresholds`.
pub fn tier_index(distance: i64, thresholds: &Vec<i32>) -> (lod: usize)
    ensures
        lod == lod_tier(thresholds@, distance as int),
{
    let mut lod: usize = 0;
    while lod < thresholds.len() && (thresholds[lod] as i64) < distance
        invariant
            lod <= thresholds.len(),
            tier_from(thresholds@, distance as int, lod as int) == lod_tier(
                thresholds@,
                distance as int,
            ),
        decreases thresholds.len() - lod,
    {
        lod += 1;
    }
    lod
}

/// Whether the thresholds start at zero or above and strictly ascend.
pub fn is_ascending(thresholds: &Vec<i32>) -> (b: bool)
    ensures
        b == ascending(thresholds@),
{
    if thresholds.len() > 0 && thresholds[0] < 0 {
        return false;
    }
    let mut i: usize = 1;
    while i < thresholds.len()
        invariant
            1 <= i,
            thresholds.len() > 0 ==> thresholds[0] >= 0,
            forall|a: int, b: int|
                0 <= a < b < i && b < thresholds.len() ==> thresholds[a] < thresholds[b],
        decreases thresholds.len() - i,
    {
        if thresholds[i - 1] >= thresholds[i] {
            return false;
        }
        i += 1;
    }
    true
}

/// Checks a tier table: one quality factor per tier, thresholds that start at
/// zero or above and strictly ascend, and no quality factor of zero.
pub fn check_tiers(thresholds: &Vec<i32>, quality: &Vec<u32>) -> (r: Result<(), ConfigError>)
    ensures
        match tier_fault(thresholds@, quality@) {
            Some(e) => r == Err::<(), ConfigError>(e),
            None => r.is_ok(),
        },
{
    let tiers: usize = quality.len();
    if thresholds.len() == usize::MAX || tiers != thresholds.len() + 1 {
        return Err(ConfigError::TierCount);
    }
    if !is_ascending(thresholds) {
        return Err(ConfigError::NotAscending);
    }
    let mut k: usize = 0;
    while k < quality.len()
        invariant
            k <= quality.len(),
            quality.len() == thresholds.len() + 1,
            ascending(thresholds@),
            forall|a: int| 0 <= a < k ==> quality[a] > 0,
        decreases quality.len() - k,
    {
        if quality[k] == 0 {
            return Err(ConfigError::ZeroQuality);
        }
        k += 1;
    }
    Ok(())
}

/// The number of blocks in the shell at radius `r`: the squared width of the
/// cube of that radius less the squared width of the cube inside it. The
/// innermost shell is the observer's own block.
pub open spec fn shell_blocks(r: int) -> int {
    if r <= 0 {
        1
    } else {
        (2 * r + 1) * (2 * r + 1) - (2 * r - 1) * (2 * r - 1)
    }
}

/// The polygons of the shell at radius `r`: each of its blocks holds four
/// times the square of the quality factor of the shell's tier.
pub open spec fn shell_cost(thresholds: Seq<i32>, quality: Seq<u32>, r: int) -> int {
    let q = quality[lod_tier(thresholds, r)] as int;
    shell_blocks(r) * (q * q * 4)
}

/// The polygons of the first `n` shells together.
pub open spec fn cost_within(thresholds: Seq<i32>, quality: Seq<u32>, n: int) -> int
    decreases n,
{
    if n <= 0 {
        0
    } else {
        cost_within(thresholds, quality, n - 1) + shell_cost(thresholds, quality, n - 1)
    }
}

/// `d` is the number of shells that `budget` pays for: the first `d` fit in
/// it, and one more does not.
pub open spec fn affordable_shells(
    budget: int,
    thresholds: Seq<i32>,
    quality: Seq<u32>,
    d: int,
) -> bool {
    &&& d >= 0
    &&& d == 0 || cost_within(thresholds, quality, d) <= budget
    &&& budget < cost_within(thresholds, quality, d + 1)
}

proof fn lemma_shell_cost(thresholds: Seq<i32>, quality: Seq<u32>, r: int, q: int)
    requires
        tier_fault(thresholds, quality).is_none(),
        0 <= r,
        q == quality[lod_tier(thresholds, r)],
    ensures
        0 <= lod_tier(thresholds, r) < quality.len(),
        shell_blocks(r) == (if r == 0 { 1 } else { 8 * r }),
        1 <= q <= u32::MAX,
        4 <= q * q * 4 <= 0x4_0000_0000_0000_0000,
        4 <= shell_cost(thresholds, quality, r),
        r <= i32::MAX ==> shell_cost(thresholds, quality, r) <= 0x4_0000_0000_0000_0000
            * 0x4_0000_0000,
        shell_cost(thresholds, quality, r) == shell_blocks(r) * (q * q * 4),
{
    lemma_tier_from(thresholds, r, 0);
    assert((2 * r + 1) * (2 * r + 1) - (2 * r - 1) * (2 * r - 1) == 8 * r) by (nonlinear_arith);
    assert(1 <= q * q <= 0x1_0000_0000_0000_0000) by (nonlinear_arith)
        requires
            1 <= q <= 0xffff_ffff,
    ;
    let b = shell_blocks(r);
    let p = q * q * 4;
    assert(4 <= b * p) by (nonlinear_arith)
        requires
            1 <= b,
            4 <= p,
    ;
    if r <= i32::MAX {
        assert(b * p <= 0x4_0000_0000_0000_0000 * 0x4_0000_0000) by (nonlinear_arith)
            requires
                1 <= b <= 0x4_0000_0000,
                4 <= p <= 0x4_0000_0000_0000_0000,
        ;
    }
}

/// How many shells around the observer a polygon budget pays for, walking
/// outward from the observer's own block and stopping before the first shell
/// that the rest of the budget does not cover. A tier table that
/// `check_tiers` refuses is refused here with the same error.
pub fn compute_load_distance(polygon_budget: i32, thresholds: &Vec<i32>, quality: &Vec<u32>) -> (r:
    Result<i32, ConfigError>)
    ensures
        match tier_fault(thresholds@, quality@) {
            Some(e) => r == Err::<i32, ConfigError>(e),
            None => r.is_ok() && affordable_shells(
                polygon_budget as int,
                thresholds@,
                quality@,
                r.unwrap() as int,
            ),
        },
{
    match check_tiers(thresholds, quality) {
        Err(e) => {
            return Err(e);
        },
        Ok(_) => {},
    }
    let mut remaining: i128 = polygon_budget as i128;
    let mut distance: i32 = 0;
    loop
        invariant
            tier_fault(thresholds@, quality@).is_none(),
            0 <= distance,
            remaining == polygon_budget - cost_within(thresholds@, quality@, distance as int),
            distance == 0 || remaining >= 0,
            4 * distance <= cost_within(thresholds@, quality@, distance as int),
        decreases remaining,
    {
        let tier: usize = tier_index(distance as i64, thresholds);
        proof {
            lemma_tier_from(thresholds@, distance as int, 0);
            lemma_shell_cost(thresholds@, quality@, distance as int, quality@[tier as int] as int);
        }
        let q: i128 = quality[tier] as i128;
        let blocks: i128 = if distance == 0 {
            1
        } else {
            8 * (distance as i128)
        };
        let cost: i128 = blocks * (q * q * 4);
        if cost > remaining {
            return Ok(distance);
        }
        remaining = remaining - cost;
        distance = distance + 1;
    }
}

/// The load distance that the streaming loop works with: the budget's reach,
/// held to the operational maximum.
pub fn cap_load_distance(load_distance: i32, max_load_distance: i32) -> (capped: i32)
    ensures
        capped == (if load_distance > max_load_distance {
            max_load_distance
        } else {
            load_distance
        }),
{
    if load_distance > max_load_distance {
        max_load_distance
    } else {
        load_distance
    }
}

/// A budget of nothing pays for no shell, not even the observer's own block.
pub proof fn lemma_no_budget_no_shell(thresholds: Seq<i32>, quality: Seq<u32>, d: int)
    requires
        tier_fault(thresholds, quality).is_none(),
        affordable_shells(0, thresholds, quality, d),
    ensures
        d == 0,
{
    if d > 0 {
        lemma_cost_grows(thresholds, quality, d);
    }
}

/// Every shell costs something: `n` shells cost at least `4 * n` polygons.
pub proof fn lemma_cost_grows(thresholds: Seq<i32>, quality: Seq<u32>, n: int)
    requires
        tier_fault(thresholds, quality).is_none(),
        0 <= n,
    ensures
        cost_within(thresholds, quality, n) >= 4 * n,
    decreases n,
{
    if n > 0 {
        lemma_cost_grows(thresholds, quality, n - 1);
        lemma_shell_cost(
            thresholds,
            quality,
            n - 1,
            quality[lod_tier(thresholds, n - 1)] as int,
        );
    }
}

/// More shells never cost less.
pub proof fn lemma_cost_monotonic(thresholds: Seq<i32>, quality: Seq<u32>, n: int, m: int)
    requires
        tier_fault(thresholds, quality).is_none(),
        0 <= n <= m,
    ensures
        cost_within(thresholds, quality, n) <= cost_within(thresholds, quality, m),
    decreases m - n,
{
    if n < m {
        lemma_cost_monotonic(thresholds, quality, n, m - 1);
        lemma_shell_cost(
            thresholds,
            quality,
            m - 1,
            quality[lod_tier(thresholds, m - 1)] as int,
        );
    }
}

/// A budget pays for one number of shells only.
pub proof fn lemma_affordable_shells_unique(
    budget: int,
    thresholds: Seq<i32>,
    quality: Seq<u32>,
    d: int,
    e: int,
)
    requires
        tier_fault(thresholds, quality).is_none(),
        affordable_shells(budget, thresholds, quality, d),
        affordable_shells(budget, thresholds, quality, e),
    ensures
        d == e,
{
    if d < e {
        lemma_cost_monotonic(thresholds, quality, d + 1, e);
    }
    if e < d {
        lemma_cost_monotonic(thresholds, quality, e + 1, d);
    }
}

} // verus!
