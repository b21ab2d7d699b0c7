//! Extraction of normalized transaction records from camt.052 bank
//! statement documents, which may arrive nested inside ZIP archives.
//!
//! The pipeline sniffs each byte stream, unpacks archives recursively,
//! navigates the statement XML by slash-separated element paths, and decodes
//! each reported entry into a strongly typed [`transaction::Transaction`].
use vstd::prelude::*;

pub mod csv;
pub mod decimal;
pub mod dispatch;
pub mod errors;
pub mod iso_date;
pub mod transaction;
pub mod text;
pub mod xml_document_finder;
pub mod xml_tree;

verus! {

/// The output format a caller asks for; rendering itself is done by writers
/// outside this library.
#[derive(Clone, Debug)]
pub enum Format {
    Csv,
    Ods,
}

/// The command-line surface of the tool: input files, output format, and
/// the output target (`"-"` for standard output).
#[derive(Clone, Debug)]
pub struct Args {
    pub files: Vec<String>,
    pub format: Format,
    pub output: String,
}

} // verus!
