//! The command line of the explorer, as plain values: the command and its options.

use vstd::prelude::*;
use crate::generator::SelectionStrategy;

verus! {

/// TREE(k) sequence explorer - generates valid sequences of labeled rooted trees.
#[derive(Debug)]
pub struct Cli {
    pub command: Commands,
}

#[derive(Debug)]
pub enum Commands {
    /// Generate a valid TREE(k) sequence and export SVGs/JSON
    Generate(GenerateArgs),
}

#[derive(Debug, Clone, Copy, PartialEq, Eq, Structural)]
pub enum StrategyArg {
    /// Greedily pick smallest valid tree at each position (canonical order)
    Smallest,
    /// Greedily pick largest valid tree at each position (uses full node budget early)
    Largest,
    /// Pick a uniformly random valid tree at each position
    Random,
}

#[derive(Debug)]
pub struct GenerateArgs {
    /// Number of trees to generate (omit to run until no valid tree remains)
    pub count: Option<usize>,
    /// Maximum number of nodes per tree (hard cap, independent of i-node rule)
    pub max_nodes: usize,
    /// Label alphabet size (labels will be 1..=labels)
    pub labels: u32,
    /// Output directory for SVG files
    pub out: String,
    /// Also write sequence.json to the output directory
    pub export_json: bool,
    /// Greedy selection strategy: smallest, largest or random
    pub strategy: StrategyArg,
    /// Seed of the random strategy (omit to seed from the clock)
    pub seed: Option<u64>,
}

/// The selection strategy that a strategy option names.
pub fn selection_strategy(arg: StrategyArg) -> (s: SelectionStrategy)
    ensures
        arg == StrategyArg::Smallest ==> s == SelectionStrategy::SmallestFirst,
        arg == StrategyArg::Largest ==> s == SelectionStrategy::LargestFirst,
        arg == StrategyArg::Random ==> s == SelectionStrategy::Random,
{
    match arg {
        StrategyArg::Smallest => SelectionStrategy::SmallestFirst,
        StrategyArg::Largest => SelectionStrategy::LargestFirst,
        StrategyArg::Random => SelectionStrategy::Random,
    }
}

} // verus!
