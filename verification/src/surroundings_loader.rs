//! The surroundings loader: remembers where the observer was, and turns each
//! new position into the changes that the move asks for.

use vstd::prelude::*;
use crate::position::BlockPosition;
use crate::lod::{ConfigError, ascending, is_ascending};
use crate::shell::{LODChange, is_shell_diff, shell_diff};

verus! {

/// What is wrong with a loader's configuration, if anything: thresholds out
/// of order first, then a negative load distance or a threshold that does
/// not lie below the load distance.
pub open spec fn loader_fault(load_distance: int, thresholds: Seq<i32>) -> Option<ConfigError> {
    if !ascending(thresholds) {
        Some(ConfigError::NotAscending)
    } else if load_distance < 0 || exists|i: int|
        0 <= i < thresholds.len() && thresholds[i] >= load_distance {
        Some(ConfigError::BeyondLoadDistance)
    } else {
        None
    }
}

/// The state of the shell differ between moves.
#[derive(Debug)]
pub struct SurroundingsLoader {
    last_position: Option<BlockPosition>,
    load_distance: i32,
    thresholds: Vec<i32>,
}

impl SurroundingsLoader {
    /// Where the observer was at the last update; nothing before the first.
    pub closed spec fn last(&self) -> Option<BlockPosition> {
        self.last_position
    }

    /// The radius of the loaded region.
    pub closed spec fn reach(&self) -> int {
        self.load_distance as int
    }

    /// The tier thresholds.
    pub closed spec fn tiers(&self) -> Seq<i32> {
        self.thresholds@
    }

    /// The configuration is one that `new` accepts.
    pub open spec fn wf(&self) -> bool {
        loader_fault(self.reach(), self.tiers()).is_none()
    }

    /// A loader that has seen no position yet. Thresholds that do not start
    /// at zero or above and strictly ascend are refused, and so is a load
    /// distance that is negative or not above every threshold.
    pub fn new(load_distance: i32, thresholds: Vec<i32>) -> (r: Result<Self, ConfigError>)
        ensures
            match loader_fault(load_distance as int, thresholds@) {
                Some(e) => r is Err && r->Err_0 == e,
                None => r.is_ok() && r.unwrap().last().is_none() && r.unwrap().reach()
                    == load_distance && r.unwrap().tiers() == thresholds@,
            },
    {
        if !is_ascending(&thresholds) {
            return Err(ConfigError::NotAscending);
        }
        let n: usize = thresholds.len();
        if load_distance < 0 || (n > 0 && thresholds[n - 1] >= load_distance) {
            return Err(ConfigError::BeyondLoadDistance);
        }
        Ok(SurroundingsLoader { last_position: None, load_distance, thresholds })
    }

    /// Where the observer was at the last update.
    pub fn last_position(&self) -> (p: Option<BlockPosition>)
        ensures
            p == self.last(),
    {
        self.last_position
    }

    /// The radius of the loaded region.
    pub fn load_distance(&self) -> (d: i32)
        ensures
            d == self.reach(),
    {
        self.load_distance
    }

    /// The tier thresholds.
    pub fn thresholds(&self) -> (t: &Vec<i32>)
        ensures
            t@ == self.tiers(),
    {
        &self.thresholds
    }

    /// Takes the observer's new position: returns the changes that the move
    /// from the last position asks for, in the order of delivery, and
    /// remembers the new position, whether or not anything changed.
    pub fn update(&mut self, position: BlockPosition) -> (changes: Vec<LODChange>)
        ensures
            is_shell_diff(changes@, old(self).last(), position, old(self).tiers(), old(self).reach()),
            final(self).last() == Some(position),
            final(self).reach() == old(self).reach(),
            final(self).tiers() == old(self).tiers(),
    {
        let changes = shell_diff(self.last_position, position, &self.thresholds, self.load_distance);
        self.last_position = Some(position);
        changes
    }
}

} // verus!
