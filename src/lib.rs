//! Orchestration of an all-against-all genome distance run: discovering the
//! inputs, planning and pooling the sketch jobs, and normalising the
//! distance matrix with an optional alias table.
use vstd::prelude::*;

pub mod alias;
pub mod discover;
pub mod error;
pub mod matrix;
pub mod pool;
pub mod sketch;
pub mod text;

verus! {

/// The settings of a run.
pub struct Config {
    /// A table of short names for the samples.
    pub alias_file: Option<String>,
    /// Where the figure script lives.
    pub bin_dir: Option<String>,
    pub kmer_size: Option<u32>,
    pub sketch_size: Option<u32>,
    pub num_threads: Option<u32>,
    /// How many sketch jobs run at a time.
    pub num_concurrent: usize,
    pub out_dir: String,
    /// Input files or directories.
    pub query: Vec<String>,
}

} // verus!
