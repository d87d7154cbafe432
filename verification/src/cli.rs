//! The command-line configuration as plain values. The binary around the
//! library parses arguments into this shape and hands it over; the library
//! itself never touches the process environment.
use vstd::prelude::*;

verus! {

/// Split RDF files into smaller chunks.
///
/// Supported formats: Turtle (.ttl), N-Triples (.nt), N-Quads (.nq),
/// RDF/XML (.rdf, .owl, .xml), TriG (.trig), JSON-LD (.jsonld, .json-ld).
pub struct Cli {
    /// Input file paths or glob patterns.
    pub inputs: Vec<String>,
    /// Records per output chunk; conflicts with `file_count`.
    pub chunk_size: Option<usize>,
    /// Split into exactly this many output files; conflicts with
    /// `chunk_size` and needs a counting pass.
    pub file_count: Option<usize>,
    /// The output directory.
    pub output: String,
    /// Recurse into subdirectories.
    pub recursive: bool,
    /// Overwrite existing output files; create the output directory if
    /// missing.
    pub force: bool,
    /// Verbose log output.
    pub verbose: bool,
}

} // verus!
