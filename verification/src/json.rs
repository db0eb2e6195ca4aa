//! The lite JSON layer: error types, the lexer, token-level parsing and the
//! incremental JSON writer.

pub mod error;
pub mod escape;
pub mod lexer;
pub mod odf_spec;
pub mod omi_spec;
pub mod parser;
pub mod serializer;
pub mod odf_writer;
pub mod omi_writer;
pub mod writer_laws;
