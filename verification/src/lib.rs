//! A reader for the object layer of PDF files: the COS object syntax, the
//! classic cross-reference table, and the logic that locates the trailer and
//! the indirect objects inside the bytes of a document.

pub mod error;
pub mod cos;
pub mod lex;
pub mod grammar;
pub mod number;
pub mod text;
pub mod value;
pub mod parser;
pub mod xref;
pub mod lines;
pub mod document;
pub mod flate;
pub mod object;
pub mod render;
pub mod roundtrip;
pub mod xref_text;
pub mod minimal_file;
