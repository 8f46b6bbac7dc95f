//! Optimal placement of a shared pool of gems into the sockets of a batch of
//! treasures.

pub mod allocation;
pub mod appraisal;
pub mod catalog;
pub mod combo;

pub use allocation::{
    allocate_gems, AllocationError, ObjectiveFunction, Socket, SocketedTreasure, MAX_TREASURES,
};
pub use appraisal::{appraise, Appraisal, Bonus};
pub use catalog::{
    gem, gems, treasure, treasures, Color, Combo, Gem, Shape, Sockets, Treasure,
    TreasureCollection, GEM_KINDS, TREASURE_KINDS,
};
pub use combo::{add_combos, binomial, combinations, compare_combos};
