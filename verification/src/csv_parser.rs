//! The record of one recipient.

use vstd::prelude::*;

verus! {

/// One row of the record table. Every field is a plain string and none is
/// ever absent.
#[derive(Debug, Clone)]
pub struct CsvData {
    pub code: String,
    pub formation: String,
    pub name: String,
    pub degrees: String,
    pub role: String,
    pub journal: String,
    pub institution: String,
    pub location: String,
    pub respected: String,
    pub invite: String,
}

} // verus!
