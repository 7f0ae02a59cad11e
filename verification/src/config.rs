//! The plain settings of a simulation run.

use std::path::PathBuf;
use vstd::prelude::*;

verus! {

#[verifier::external_type_specification]
#[verifier::external_body]
pub struct ExPathBuf(PathBuf);

/// The file format of a graph.
pub enum GraphFormat {
    /// One edge per line, two node numbers separated by white space.
    EdgeList,
    /// Comma-separated values.
    Csv,
    /// Tab-separated values.
    Tsv,
}

impl Default for GraphFormat {
    /// An edge list.
    fn default() -> (f: Self)
        ensures
            f is EdgeList,
    {
        GraphFormat::EdgeList
    }
}

/// Where and how to load a graph.
pub struct GraphConfig {
    /// The file that holds the graph.
    pub path: PathBuf,
    /// Whether the edges are directed.
    pub directed: bool,
    /// Whether each edge is to be reversed.
    pub transposed: bool,
    /// The file format.
    pub format: GraphFormat,
}

/// The arguments of a brute-force run.
pub struct MyArgs {
    /// The configuration file (TOML).
    pub config_path: PathBuf,
    /// The output file (Parquet).
    pub output_path: PathBuf,
    /// How many jobs can run in parallel.
    pub max_job_size: usize,
    /// How many rows are buffered before a batch is written.
    pub row_buffer_size: usize,
    /// The Zstd compression level.
    pub zstd_level: i32,
}

} // verus!
