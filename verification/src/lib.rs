//! Dice-check resolution for tabletop combat: pools of dice are rolled,
//! tallied, partly re-rolled once and classified into passes and crits.

pub mod faces;
pub mod source;
pub mod freq;
pub mod check;
pub mod sim;
pub mod trials;

pub use source::{dice_roll, RollSource};
pub use freq::{enumerate_rolls, RollFrequency};
pub use check::{CheckParams, DiceRes, ReRollCond, SimError};
pub use sim::{CritEffect, SimulationChain, SimulationLink};
pub use trials::TrialStatistics;
