//! The command-line surface of the inspector as plain data: the chosen
//! dataset path and subcommand.  Argument parsing itself happens outside
//! this crate; what arrives here is already structured.

use vstd::prelude::*;

verus! {

/// A parsed invocation: an optional dataset path and an optional command.
pub struct Cli {
    pub filepath: Option<String>,
    pub cmd: Option<Command>,
}

/// The inspector's commands.
pub enum Command {
    /// Open the interactive shell.
    Tui,
    /// Print dataset facts.
    Info,
    /// View the first `n` rows.
    Head { n: usize },
    /// View `n` randomly sampled rows.
    Sample { n: usize },
    /// Print per-column statistics.
    Stats,
    /// View the whole dataset.
    Display,
    /// Generate a synthetic dataset.
    Generate { n_items: usize, n_dims: usize, seed: u64 },
}

} // verus!
