//! Extraction of specification prose that is interleaved with source code.
//!
//! A source file may carry specification text in comments that start with a
//! chosen delimiter (by convention `//~`).  The library walks such a file line
//! by line and assembles the marked lines into a single Markdown document,
//! honoring two instructions, `spec:startcode` and `spec:endcode`, that wrap
//! the plain code lines between them in a fenced code block.  Markdown files
//! are passed through unchanged.
//!
//! The callers are expected to read the files; the library works on their
//! contents as plain strings.

pub mod comment_parser;
pub mod laws;
pub mod model;
pub mod scanner;
pub mod text;
