//! Personalised documents from a record table and a document template:
//! placeholder substitution in a template archive, extraction of the plain
//! text of its markup, layout of that text on one fixed-size page, and
//! emission of a minimal page document.
//!
//! Files are handled as bytes: reading the template and writing the results
//! is left to the caller.

pub mod archive;
pub mod csv_parser;
pub mod docx_processor;
pub mod error;
pub mod layout;
pub mod markup;
pub mod naming;
pub mod pdf_converter;
pub mod pdf_generator;
pub mod text;
