/// The common search and improvement contracts, and their composition.
pub mod algo;
/// The complete weighted graph the algorithms run on.
pub mod graph;
/// The capacity-bounded, score-sorted pool of past solutions.
pub mod harmony_memory;
/// Structured errors for reading text instances.
pub mod instances;
/// The local-search improver: segment reordering and best-insertion.
pub mod ri_algorithm;
/// The greedy-randomized construction heuristic.
pub mod s_algorithm;
/// Random drawing primitives and desirability weights.
pub mod sampling;
/// Paths with their derived score and cost.
pub mod solution;
/// The harmony-search orchestrator.
pub mod szwarc_boryczka;

use vstd::prelude::*;

verus! {

/// Scale in which probability-like rates are expressed: a rate of
/// `RATE_SCALE` means certainty, `0` means never.
pub const RATE_SCALE: u64 = 1_000_000;

} // verus!
