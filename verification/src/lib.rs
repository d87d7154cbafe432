//! Splits streams of RDF statements, in any of six textual syntaxes, into
//! bounded-size output files that each remain syntactically valid on their
//! own. The library decodes a document, partitions its statements into
//! chunks, and renders every chunk as one planned output file with its path
//! and full text; reading inputs and writing the planned files is left to
//! the caller.
pub mod cli;
pub mod format;
pub mod jsonld;
pub mod serialise;
pub mod splitter;
pub mod text;
