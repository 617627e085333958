//! Extraction of functions from C++ sources.
//!
//! Tree-sitter parses a source; this crate decides what its functions are. Each complete function,
//! constructor, operator or template becomes a unit with its one-based inclusive lines, its scope,
//! its number of arguments and the calls and constructions of its body. What the parser could not
//! read is listed beside the units, with the reason.
pub mod batch;
pub mod blanks;
pub mod bodies;
pub mod clean_text_laws;
pub mod code_laws;
pub mod cpp;
pub mod declarators;
pub mod extraction;
pub mod index_laws;
pub mod laws;
pub mod lookup;
pub mod metadata;
pub mod name_laws;
pub mod names;
pub mod pairing_laws;
pub mod pool;
pub mod protocol;
pub mod ranges;
pub mod recovery;
pub mod recovery_laws;
pub mod references;
pub mod repair_laws;
pub mod resolution_laws;
pub mod scopes;
pub mod signatures;
pub mod subtree_laws;
pub mod syntax;
pub mod text;
pub mod text_laws;
pub mod tree_laws;
pub mod unit_laws;
pub mod units;
pub mod worker_laws;

pub use batch::{
    Extractor, FileResult, InputFile, Request, Response, MAX_FILES, MAX_REQUEST_BYTES,
};
pub use cpp::{cpp_parser, CppParser};
pub use extraction::{extract, Diagnostic, Extraction, MAX_SOURCE_BYTES};
pub use metadata::{Reference, Scope};
pub use pool::default_threads;
pub use scopes::{scope_index, ScopeIndex};
pub use units::{unit, Unit};
