//! Minimum-time melee training planner: indexes an equipment catalog by stat
//! requirement breakpoints, collapses equivalent items into groups, prunes
//! dominated choices, and searches the graph of stat triples for the fastest
//! route from a start to a goal, picking the best loadout at every step.
use vstd::prelude::*;

pub mod breakpoints;
pub mod gear;
pub mod item_group;
pub mod level;
pub mod search;
pub mod types;
pub mod xp;

verus! {

/// Integer type used for item ids, equipment bonuses and stat levels.
pub type GameInt = i64;

} // verus!
