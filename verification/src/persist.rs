//! Storing an index as JSON, and loading it again.
//!
//! The stored form is an object with one member for each document, named by
//! the document's identifier; the member is an object with one member for
//! each term, whose value is the count of the term.

use vstd::prelude::*;
use crate::corpus::{
    entry_fault, faultless, index_of_rows, stored, stored_rows, CorpusIndex, DocumentEntry,
    LoadError,
};
use crate::term_freq::TermCount;

verus! {

/// The error of `serde_json`.
#[verifier::external_type_specification]
#[verifier::external_body]
pub struct ExJsonError(serde_json::Error);

/// What `serde_json::from_slice` reads from a JSON text as a map of maps of
/// counts, the members of each object in the order of their names; `None`
/// where the text is not JSON of that shape.
pub uninterp spec fn json_parsed(json: Seq<u8>) -> Option<Seq<(Seq<char>, Seq<(Seq<char>, nat)>)>>;

/// What `serde_json::to_string_pretty` writes for the map of maps of counts
/// that `entries` list; `None` where it fails.
pub uninterp spec fn json_written(entries: Seq<(Seq<char>, Seq<(Seq<char>, nat)>)>) -> Option<
    Seq<char>,
>;

/// Why no index could be loaded from a text.
#[derive(Debug, PartialEq, Eq, Clone, Copy, Structural)]
pub enum PersistenceError {
    /// The text is not JSON, or not an object of objects of counts.
    Malformed,
    /// An entry of the stored index is at fault.
    Faulty(LoadError),
}

/// `serde_json::from_slice`, asked for a `BTreeMap` of `BTreeMap`s of
/// counts: trusted to read the same map from the same bytes, and to fail
/// exactly where `json_parsed` has no value. The maps are handed on entry by
/// entry, in the order of their keys.
#[verifier::external_body]
fn parse_entries(json: &[u8]) -> (parsed: Result<Vec<DocumentEntry>, serde_json::Error>)
    ensures
        match parsed {
            Ok(entries) => json_parsed(json@) == Some(stored(entries@)),
            Err(_) => json_parsed(json@) is None,
        },
{
    let index: std::collections::BTreeMap<String, std::collections::BTreeMap<String, usize>> =
        serde_json::from_slice(json)?;
    let mut entries = Vec::new();
    for (id, counts) in index {
        let mut terms = Vec::new();
        for (term, count) in counts {
            terms.push(TermCount { term, count });
        }
        entries.push(DocumentEntry { id, terms });
    }
    Ok(entries)
}

/// `serde_json::to_string_pretty`, given the entries as a `BTreeMap` of
/// `BTreeMap`s of counts: trusted to write the same text for the same
/// entries.
#[verifier::external_body]
fn write_entries(entries: &Vec<DocumentEntry>) -> (written: Result<String, serde_json::Error>)
    ensures
        match written {
            Ok(json) => json_written(stored(entries@)) == Some(json@),
            Err(_) => json_written(stored(entries@)) is None,
        },
{
    let mut index = std::collections::BTreeMap::new();
    for entry in entries {
        let mut counts = std::collections::BTreeMap::new();
        for term in &entry.terms {
            counts.insert(term.term.as_str(), term.count);
        }
        index.insert(entry.id.as_str(), counts);
    }
    serde_json::to_string_pretty(&index)
}

/// The index that the JSON text `json` stores.
///
/// The text has to be an object of objects of counts, and no entry of it may
/// be at fault: the error names the first entry that is.
pub fn load_index(json: &[u8]) -> (loaded: Result<CorpusIndex, PersistenceError>)
    ensures
        match loaded {
            Ok(index) => json_parsed(json@) matches Some(entries) && {
                &&& faultless(entries)
                &&& index.stored_entries() == entries
                &&& index@ == index_of_rows(stored_rows(entries))
            },
            Err(PersistenceError::Malformed) => json_parsed(json@) is None,
            Err(PersistenceError::Faulty(error)) => json_parsed(json@) matches Some(entries) && {
                &&& error.position < entries.len()
                &&& forall|i: int| 0 <= i < error.position ==> entry_fault(entries, i) is None
                &&& entry_fault(entries, error.position as int) == Some(error.fault)
            },
        },
{
    match parse_entries(json) {
        Ok(entries) => match CorpusIndex::from_entries(entries) {
            Ok(index) => Ok(index),
            Err(error) => Err(PersistenceError::Faulty(error)),
        },
        Err(_) => Err(PersistenceError::Malformed),
    }
}

/// The JSON text that stores `index`, or `None` where it cannot be
/// written.
pub fn save_index(index: &CorpusIndex) -> (saved: Option<String>)
    ensures
        match saved {
            Some(json) => json_written(index.stored_entries()) == Some(json@),
            None => json_written(index.stored_entries()) is None,
        },
{
    let entries = index.to_entries();
    match write_entries(&entries) {
        Ok(json) => Some(json),
        Err(_) => None,
    }
}

} // verus!
