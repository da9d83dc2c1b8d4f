use vstd::prelude::*;

use crate::entry::RegretEntry;

verus! {

/// What reading the stored log document gave.
#[derive(Debug)]
pub enum Document {
    /// No document is stored yet.
    Absent,
    /// A document is stored, but it could not be read or parsed as a log.
    Corrupt,
    /// The entries that the stored document holds, oldest first.
    Parsed(Vec<RegretEntry>),
}

/// The log that a command starts from: the parsed entries as they are, and an
/// empty log when no document is stored or when the stored one is corrupt.
/// A corrupt document is not an error: its contents are given up.
pub fn log_from_document(doc: Document) -> (r: Vec<RegretEntry>)
    ensures
        match doc {
            Document::Parsed(entries) => r@ == entries@,
            Document::Absent => r@.len() == 0,
            Document::Corrupt => r@.len() == 0,
        },
{
    match doc {
        Document::Parsed(entries) => entries,
        Document::Absent => Vec::new(),
        Document::Corrupt => Vec::new(),
    }
}

} // verus!
