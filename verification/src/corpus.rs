//! The corpus index: the term frequencies of every indexed document.
//!
//! A [`CorpusIndex`] is viewed as a map from document identifier to the
//! multiset of the document's tokens. No document of an index is without
//! tokens.

use vstd::prelude::*;
use vstd::multiset::Multiset;
use vstd::set_lib::lemma_set_subset_finite;
use crate::text::same_text;
use crate::lexer::{is_blank, lemma_no_tokens_iff_blank, tokens_of};
use crate::term_freq::{
    bag_of, count_list, counts, distinct_terms, index_document, positive_counts, Count,
    EntriesError, TermCount, TermFreq,
};

verus! {

/// One indexed document: its identifier and its term frequencies.
#[derive(Debug)]
pub struct Document {
    pub id: String,
    pub terms: TermFreq,
}

/// One document of an index in plain values, as it is stored and loaded.
#[derive(Debug)]
pub struct DocumentEntry {
    pub id: String,
    pub terms: Vec<TermCount>,
}

/// What became of a document that was offered to an index.
#[derive(Debug, PartialEq, Eq, Clone, Copy, Structural)]
pub enum IndexOutcome {
    /// The document has tokens and is in the index now.
    Indexed,
    /// The text has no token; the index is unchanged.
    Empty,
    /// No text could be had for the document; the index is unchanged.
    Unreadable,
}

/// What is wrong with one entry of a stored index.
#[derive(Debug, PartialEq, Eq, Clone, Copy, Structural)]
pub enum Fault {
    /// A term of the document has the count 0.
    ZeroCount,
    /// A term stands twice in the document.
    DuplicateTerm,
    /// The counts of the document add up to more than `usize::MAX`.
    TooManyOccurrences,
    /// The document has no term.
    EmptyDocument,
    /// An earlier entry has the same identifier.
    DuplicateDocument,
}

/// The first entry of a stored index that is at fault, and its fault.
#[derive(Debug, PartialEq, Eq, Clone, Copy, Structural)]
pub struct LoadError {
    pub position: usize,
    pub fault: Fault,
}

/// A document as contracts see it: its identifier and the multiset of its
/// tokens.
pub type Row = (Seq<char>, Multiset<Seq<char>>);

/// The rows of a list of documents.
pub open spec fn document_rows(documents: Seq<Document>) -> Seq<Row> {
    documents.map_values(|document: Document| (document.id@, document.terms@))
}

/// A stored document as contracts see it: its identifier, and its terms
/// with their counts.
pub type Stored = (Seq<char>, Seq<Count>);

impl View for DocumentEntry {
    type V = Stored;

    open spec fn view(&self) -> Stored {
        (self.id@, counts(self.terms@))
    }
}

/// The identifiers, terms and counts of a list of stored entries.
pub open spec fn stored(entries: Seq<DocumentEntry>) -> Seq<Stored> {
    entries.map_values(|entry: DocumentEntry| entry@)
}

/// The rows of a stored index.
pub open spec fn stored_rows(entries: Seq<Stored>) -> Seq<Row> {
    entries.map_values(|entry: Stored| (entry.0, bag_of(entry.1)))
}

/// No two rows have the same identifier.
pub open spec fn distinct_ids(rows: Seq<Row>) -> bool {
    forall|i: int, j: int| 0 <= i < j < rows.len() ==> (#[trigger] rows[i]).0 != (#[trigger] rows[j]).0
}

/// Whether a row has the identifier `id`.
pub open spec fn has_id(rows: Seq<Row>, id: Seq<char>) -> bool {
    exists|i: int| 0 <= i < rows.len() && (#[trigger] rows[i]).0 == id
}

/// The position of a row with the identifier `id`.
pub open spec fn row_of(rows: Seq<Row>, id: Seq<char>) -> int {
    choose|i: int| 0 <= i < rows.len() && (#[trigger] rows[i]).0 == id
}

/// The map from identifier to tokens that a list of rows stands for.
pub open spec fn index_of_rows(rows: Seq<Row>) -> Map<Seq<char>, Multiset<Seq<char>>> {
    Map::new(|id: Seq<char>| has_id(rows, id), |id: Seq<char>| rows[row_of(rows, id)].1)
}

/// Whether a stored entry has the identifier `id`.
pub open spec fn is_stored(entries: Seq<Stored>, id: Seq<char>) -> bool {
    exists|i: int| 0 <= i < entries.len() && (#[trigger] entries[i]).0 == id
}

/// A stored index with `entry` put into it: in the place of the entry with
/// the same identifier, or behind all entries where there is none.
pub open spec fn put(entries: Seq<Stored>, entry: Stored) -> Seq<Stored> {
    if is_stored(entries, entry.0) {
        entries.update(
            choose|i: int| 0 <= i < entries.len() && (#[trigger] entries[i]).0 == entry.0,
            entry,
        )
    } else {
        entries.push(entry)
    }
}

/// The identifiers of the documents of `index` in which `term` occurs.
pub open spec fn documents_with(
    index: Map<Seq<char>, Multiset<Seq<char>>>,
    term: Seq<char>,
) -> Set<Seq<char>> {
    Set::new(|id: Seq<char>| index.contains_key(id) && index[id].contains(term))
}

/// The fault of entry `i` of a stored index, if it has one. An entry whose
/// terms are in order is at fault when it has no term or repeats the
/// identifier of an earlier entry.
pub open spec fn entry_fault(entries: Seq<Stored>, i: int) -> Option<Fault> {
    let terms = entries[i].1;
    if !positive_counts(terms) {
        Some(Fault::ZeroCount)
    } else if !distinct_terms(terms) {
        Some(Fault::DuplicateTerm)
    } else if bag_of(terms).len() > usize::MAX {
        Some(Fault::TooManyOccurrences)
    } else if bag_of(terms).len() == 0 {
        Some(Fault::EmptyDocument)
    } else if exists|k: int| 0 <= k < i && (#[trigger] entries[k]).0 == entries[i].0 {
        Some(Fault::DuplicateDocument)
    } else {
        None
    }
}

/// No entry of a stored index is at fault.
pub open spec fn faultless(entries: Seq<Stored>) -> bool {
    forall|i: int| 0 <= i < entries.len() ==> entry_fault(entries, i) is None
}

/// With distinct identifiers, every row is found under its identifier.
pub proof fn lemma_row_lookup(rows: Seq<Row>, i: int)
    requires
        distinct_ids(rows),
        0 <= i < rows.len(),
    ensures
        index_of_rows(rows).contains_key(rows[i].0),
        index_of_rows(rows)[rows[i].0] == rows[i].1,
{
    let id = rows[i].0;
    assert(has_id(rows, id));
    let k = row_of(rows, id);
    if k < i {
        assert(rows[k].0 != rows[i].0);
    } else if i < k {
        assert(rows[i].0 != rows[k].0);
    }
}

/// A row with a new identifier, appended, is one more key of the map.
pub proof fn lemma_rows_push(rows: Seq<Row>, row: Row)
    requires
        distinct_ids(rows),
        !has_id(rows, row.0),
    ensures
        distinct_ids(rows.push(row)),
        index_of_rows(rows.push(row)) == index_of_rows(rows).insert(row.0, row.1),
        !index_of_rows(rows).contains_key(row.0),
{
    let longer = rows.push(row);
    assert forall|i: int, j: int| 0 <= i < j < longer.len() implies (#[trigger] longer[i]).0 != (
    #[trigger] longer[j]).0 by {
        assert(longer[i] == rows[i]);
        if j < rows.len() {
            assert(longer[j] == rows[j]);
        }
    }
    assert forall|id: Seq<char>| has_id(longer, id) <==> (has_id(rows, id) || id == row.0) by {
        if has_id(longer, id) {
            let i = row_of(longer, id);
            if i < rows.len() {
                assert(rows[i].0 == id);
            }
        }
        if has_id(rows, id) {
            let i = row_of(rows, id);
            assert(longer[i].0 == id);
        }
        if id == row.0 {
            assert(longer[rows.len() as int].0 == id);
        }
    }
    assert forall|id: Seq<char>| has_id(longer, id) implies #[trigger] index_of_rows(longer)[id]
        == index_of_rows(rows).insert(row.0, row.1)[id] by {
        let i = row_of(longer, id);
        lemma_row_lookup(longer, i);
        if i < rows.len() {
            assert(rows[i] == longer[i]);
            lemma_row_lookup(rows, i);
        }
    }
    assert(index_of_rows(longer) =~= index_of_rows(rows).insert(row.0, row.1));
}

/// A row put in the place of one with the same identifier replaces what
/// the map holds under that identifier.
pub proof fn lemma_rows_replace(rows: Seq<Row>, at: int, row: Row)
    requires
        distinct_ids(rows),
        0 <= at < rows.len(),
        rows[at].0 == row.0,
    ensures
        distinct_ids(rows.update(at, row)),
        index_of_rows(rows.update(at, row)) == index_of_rows(rows).insert(row.0, row.1),
{
    let changed = rows.update(at, row);
    assert forall|i: int, j: int| 0 <= i < j < changed.len() implies (#[trigger] changed[i]).0 != (
    #[trigger] changed[j]).0 by {
        assert(changed[i].0 == rows[i].0);
        assert(changed[j].0 == rows[j].0);
    }
    assert forall|id: Seq<char>| has_id(changed, id) <==> has_id(rows, id) by {
        if has_id(changed, id) {
            let i = row_of(changed, id);
            assert(rows[i].0 == id);
        }
        if has_id(rows, id) {
            let i = row_of(rows, id);
            assert(changed[i].0 == id);
        }
    }
    assert(has_id(rows, row.0)) by {
        assert(rows[at].0 == row.0);
    }
    assert forall|id: Seq<char>| has_id(changed, id) implies #[trigger] index_of_rows(changed)[id]
        == index_of_rows(rows).insert(row.0, row.1)[id] by {
        let i = row_of(changed, id);
        lemma_row_lookup(changed, i);
        if i != at {
            assert(rows[i] == changed[i]);
            lemma_row_lookup(rows, i);
            if i < at {
                assert(rows[i].0 != rows[at].0);
            } else {
                assert(rows[at].0 != rows[i].0);
            }
        }
    }
    assert(index_of_rows(changed) =~= index_of_rows(rows).insert(row.0, row.1));
}

/// Distinct identifiers stay distinct in every prefix, and the row behind a
/// prefix is not in it.
pub proof fn lemma_rows_prefix(rows: Seq<Row>, n: int)
    requires
        distinct_ids(rows),
        0 <= n <= rows.len(),
    ensures
        distinct_ids(rows.take(n)),
        n < rows.len() ==> !has_id(rows.take(n), rows[n].0) && rows.take(n + 1) == rows.take(
            n,
        ).push(rows[n]),
{
    let front = rows.take(n);
    assert forall|i: int, j: int| 0 <= i < j < front.len() implies (#[trigger] front[i]).0 != (
    #[trigger] front[j]).0 by {
        assert(front[i] == rows[i] && front[j] == rows[j]);
    }
    if n < rows.len() {
        if has_id(front, rows[n].0) {
            let i = row_of(front, rows[n].0);
            assert(front[i] == rows[i]);
            assert(rows[i].0 != rows[n].0);
        }
        assert(rows.take(n + 1) =~= front.push(rows[n]));
    }
}

/// With distinct identifiers, the map has one key for each row.
pub proof fn lemma_rows_size(rows: Seq<Row>)
    requires
        distinct_ids(rows),
    ensures
        index_of_rows(rows).dom().finite(),
        index_of_rows(rows).dom().len() == rows.len(),
    decreases rows.len(),
{
    if rows.len() == 0 {
        assert(index_of_rows(rows).dom() =~= Set::<Seq<char>>::empty());
    } else {
        let n = rows.len() - 1;
        lemma_rows_prefix(rows, n);
        lemma_rows_size(rows.take(n));
        lemma_rows_push(rows.take(n), rows[n]);
        assert(rows.take(n + 1) =~= rows);
        assert(index_of_rows(rows).dom() =~= index_of_rows(rows.take(n)).dom().insert(rows[n].0));
    }
}

/// The documents with a term are finitely many, and one more row adds its
/// identifier to them exactly when the term occurs in the row.
pub proof fn lemma_documents_with_push(rows: Seq<Row>, row: Row, term: Seq<char>)
    requires
        distinct_ids(rows),
        !has_id(rows, row.0),
    ensures
        documents_with(index_of_rows(rows), term).finite(),
        documents_with(index_of_rows(rows), term).len() <= rows.len(),
        !documents_with(index_of_rows(rows), term).contains(row.0),
        documents_with(index_of_rows(rows.push(row)), term) == if row.1.contains(term) {
            documents_with(index_of_rows(rows), term).insert(row.0)
        } else {
            documents_with(index_of_rows(rows), term)
        },
{
    lemma_rows_size(rows);
    lemma_rows_push(rows, row);
    let before = documents_with(index_of_rows(rows), term);
    assert(before.subset_of(index_of_rows(rows).dom()));
    lemma_set_subset_finite(index_of_rows(rows).dom(), before);
    vstd::set_lib::lemma_len_subset(before, index_of_rows(rows).dom());
    let after = documents_with(index_of_rows(rows.push(row)), term);
    if row.1.contains(term) {
        assert(after =~= before.insert(row.0));
    } else {
        assert(after =~= before);
    }
}

/// The term frequencies of a collection of documents, by identifier.
#[derive(Debug)]
pub struct CorpusIndex {
    documents: Vec<Document>,
}

impl View for CorpusIndex {
    type V = Map<Seq<char>, Multiset<Seq<char>>>;

    closed spec fn view(&self) -> Map<Seq<char>, Multiset<Seq<char>>> {
        index_of_rows(document_rows(self.documents@))
    }
}

impl CorpusIndex {
    #[verifier::type_invariant]
    spec fn well_formed(self) -> bool {
        &&& distinct_ids(document_rows(self.documents@))
        &&& forall|i: int|
            0 <= i < self.documents@.len() ==> (#[trigger] self.documents@[i]).terms@.len() > 0
    }

    /// The documents of the index, in the order in which their identifiers
    /// were first added, or in which `from_entries` was given them.
    pub closed spec fn listing(&self) -> Seq<Document> {
        self.documents@
    }

    /// The index in plain values: the identifier of each document of the
    /// listing, with the listing of its terms.
    pub closed spec fn stored_entries(&self) -> Seq<Stored> {
        self.documents@.map_values(|document: Document| (document.id@, document.terms.listing()))
    }

    /// The identifiers of the documents, in the order of the listing.
    pub open spec fn ids(&self) -> Seq<Seq<char>> {
        self.stored_entries().map_values(|entry: Stored| entry.0)
    }

    /// An index without documents.
    pub fn new() -> (index: Self)
        ensures
            index@ == Map::<Seq<char>, Multiset<Seq<char>>>::empty(),
            index.stored_entries() == Seq::<Stored>::empty(),
    {
        let index = CorpusIndex { documents: Vec::new() };
        assert(index@ =~= Map::<Seq<char>, Multiset<Seq<char>>>::empty());
        assert(index.stored_entries() =~= Seq::<Stored>::empty());
        index
    }

    /// The documents of the index, in the order of the listing.
    pub fn documents(&self) -> (documents: &Vec<Document>)
        ensures
            documents@ == self.listing(),
            self.stored_entries() == documents@.map_values(
                |document: Document| (document.id@, document.terms.listing()),
            ),
            index_of_rows(document_rows(documents@)) == self@,
            distinct_ids(document_rows(documents@)),
            forall|i: int| 0 <= i < documents@.len() ==> (#[trigger] documents@[i]).terms@.len() > 0,
    {
        proof {
            use_type_invariant(self);
        }
        &self.documents
    }

    /// The number of documents in the index.
    pub fn len(&self) -> (documents: usize)
        ensures
            documents == self@.dom().len(),
            self@.dom().finite(),
    {
        proof {
            use_type_invariant(self);
            lemma_rows_size(document_rows(self.documents@));
        }
        self.documents.len()
    }

    /// Whether the index has no document.
    pub fn is_empty(&self) -> (empty: bool)
        ensures
            empty == (self@.dom().len() == 0),
    {
        self.len() == 0
    }

    /// Position of the document with the identifier `id`, if there is one.
    fn position(documents: &Vec<Document>, id: &str) -> (found: Option<usize>)
        ensures
            match found {
                Some(at) => at < documents@.len() && documents@[at as int].id@ == id@,
                None => !has_id(document_rows(documents@), id@),
            },
    {
        let mut i: usize = 0;
        while i < documents.len()
            invariant
                i <= documents@.len(),
                forall|k: int| 0 <= k < i ==> (#[trigger] documents@[k]).id@ != id@,
            decreases documents@.len() - i,
        {
            if same_text(documents[i].id.as_str(), id) {
                return Some(i);
            }
            i += 1;
        }
        proof {
            let rows = document_rows(documents@);
            if has_id(rows, id@) {
                let k = row_of(rows, id@);
                assert(documents@[k].id@ == id@);
            }
        }
        None
    }

    /// The term frequencies of the document `id`, if it is in the index.
    pub fn get(&self, id: &str) -> (found: Option<&TermFreq>)
        ensures
            match found {
                Some(terms) => self@.contains_key(id@) && terms@ == self@[id@],
                None => !self@.contains_key(id@),
            },
    {
        proof {
            use_type_invariant(self);
        }
        match Self::position(&self.documents, id) {
            Some(at) => {
                proof {
                    lemma_row_lookup(document_rows(self.documents@), at as int);
                }
                Some(&self.documents[at].terms)
            },
            None => None,
        }
    }

    /// Puts `terms` into the index as the frequencies of the document `id`,
    /// in place of what the index held for `id`. Frequencies without a token
    /// are not put in: the index stays as it is, and the result is `false`.
    pub fn insert(&mut self, id: String, terms: TermFreq) -> (inserted: bool)
        ensures
            inserted == (terms@.len() > 0),
            inserted ==> final(self)@ == old(self)@.insert(id@, terms@),
            inserted ==> final(self).stored_entries() == put(
                old(self).stored_entries(),
                (id@, terms.listing()),
            ),
            !inserted ==> final(self)@ == old(self)@,
            !inserted ==> final(self).stored_entries() == old(self).stored_entries(),
    {
        proof {
            use_type_invariant(&*self);
        }
        if terms.is_empty() {
            return false;
        }
        let mut documents: Vec<Document> = Vec::new();
        core::mem::swap(&mut documents, &mut self.documents);
        let ghost before = documents@;
        let ghost row = (id@, terms@);
        let ghost kept = old(self).stored_entries();
        let ghost entry = (id@, terms.listing());
        match Self::position(&documents, id.as_str()) {
            Some(at) => {
                documents.set(at, Document { id, terms });
                proof {
                    assert(kept[at as int].0 == entry.0);
                    let chosen = choose|i: int|
                        0 <= i < kept.len() && (#[trigger] kept[i]).0 == entry.0;
                    if chosen != at {
                        let rows = document_rows(before);
                        assert(rows[chosen].0 == kept[chosen].0 && rows[at as int].0
                            == kept[at as int].0);
                        if chosen < at {
                            assert(rows[chosen].0 != rows[at as int].0);
                        } else {
                            assert(rows[at as int].0 != rows[chosen].0);
                        }
                    }
                    assert(documents@.map_values(
                        |document: Document| (document.id@, document.terms.listing()),
                    ) =~= kept.update(at as int, entry));
                    lemma_rows_replace(document_rows(before), at as int, row);
                    assert(document_rows(documents@) =~= document_rows(before).update(
                        at as int,
                        row,
                    ));
                    assert forall|i: int| 0 <= i < documents@.len() implies (
                    #[trigger] documents@[i]).terms@.len() > 0 by {
                        if i != at {
                            assert(documents@[i] == before[i]);
                        }
                    }
                }
            },
            None => {
                documents.push(Document { id, terms });
                proof {
                    if is_stored(kept, entry.0) {
                        let i = choose|i: int|
                            0 <= i < kept.len() && (#[trigger] kept[i]).0 == entry.0;
                        assert(document_rows(before)[i].0 == kept[i].0);
                    }
                    assert(documents@.map_values(
                        |document: Document| (document.id@, document.terms.listing()),
                    ) =~= kept.push(entry));
                    lemma_rows_push(document_rows(before), row);
                    assert(document_rows(documents@) =~= document_rows(before).push(row));
                    assert forall|i: int| 0 <= i < documents@.len() implies (
                    #[trigger] documents@[i]).terms@.len() > 0 by {
                        if i < before.len() {
                            assert(documents@[i] == before[i]);
                        }
                    }
                }
            },
        }
        self.documents = documents;
        true
    }

    /// Indexes the document `id` with the text `text`: tokenizes the text and
    /// puts its term frequencies into the index, unless the text has no
    /// token.
    pub fn add_document(&mut self, id: String, text: &str) -> (indexed: bool)
        ensures
            indexed == (tokens_of(text@).len() > 0),
            indexed == !is_blank(text@),
            indexed ==> final(self)@ == old(self)@.insert(id@, tokens_of(text@).to_multiset()),
            indexed ==> final(self).stored_entries() == put(
                old(self).stored_entries(),
                (id@, count_list(tokens_of(text@))),
            ),
            !indexed ==> final(self)@ == old(self)@,
            !indexed ==> final(self).stored_entries() == old(self).stored_entries(),
    {
        proof {
            vstd::seq_lib::to_multiset_len(tokens_of(text@));
            lemma_no_tokens_iff_blank(text@);
        }
        let terms = index_document(text);
        self.insert(id, terms)
    }

    /// Takes what the extraction of the document `id` gave: its text, or
    /// nothing where the document could not be read. A document that could
    /// not be read, or that has no token, leaves the index as it is.
    pub fn add_extracted(&mut self, id: String, extracted: Option<String>) -> (outcome:
        IndexOutcome)
        ensures
            match extracted {
                None => {
                    &&& outcome == IndexOutcome::Unreadable
                    &&& final(self)@ == old(self)@
                    &&& final(self).stored_entries() == old(self).stored_entries()
                },
                Some(text) => if is_blank(text@) {
                    &&& outcome == IndexOutcome::Empty
                    &&& final(self)@ == old(self)@
                    &&& final(self).stored_entries() == old(self).stored_entries()
                } else {
                    &&& outcome == IndexOutcome::Indexed
                    &&& final(self)@ == old(self)@.insert(id@, tokens_of(text@).to_multiset())
                    &&& final(self).stored_entries() == put(
                        old(self).stored_entries(),
                        (id@, count_list(tokens_of(text@))),
                    )
                },
            },
    {
        match extracted {
            None => IndexOutcome::Unreadable,
            Some(text) => {
                if self.add_document(id, text.as_str()) {
                    IndexOutcome::Indexed
                } else {
                    IndexOutcome::Empty
                }
            },
        }
    }

    /// The number of documents in which `term` occurs.
    pub fn document_frequency(&self, term: &str) -> (documents: usize)
        ensures
            documents == documents_with(self@, term@).len(),
            documents <= self@.dom().len(),
    {
        proof {
            use_type_invariant(self);
        }
        let ghost rows = document_rows(self.documents@);
        let mut documents: usize = 0;
        let mut i: usize = 0;
        proof {
            assert(documents_with(index_of_rows(rows.take(0)), term@) =~= Set::<
                Seq<char>,
            >::empty());
        }
        while i < self.documents.len()
            invariant
                i <= self.documents@.len(),
                rows == document_rows(self.documents@),
                distinct_ids(rows),
                documents == documents_with(index_of_rows(rows.take(i as int)), term@).len(),
                documents <= i,
            decreases self.documents@.len() - i,
        {
            proof {
                lemma_rows_prefix(rows, i as int);
                lemma_documents_with_push(rows.take(i as int), rows[i as int], term@);
            }
            if self.documents[i].terms.contains(term) {
                documents += 1;
            }
            i += 1;
        }
        proof {
            assert(rows.take(i as int) =~= rows);
            lemma_rows_size(rows);
        }
        documents
    }

    /// The index in plain values: one entry for each document, each with one
    /// entry for each of its terms.
    pub fn to_entries(&self) -> (entries: Vec<DocumentEntry>)
        ensures
            stored(entries@) == self.stored_entries(),
            faultless(stored(entries@)),
            index_of_rows(stored_rows(stored(entries@))) == self@,
    {
        proof {
            use_type_invariant(self);
        }
        let mut entries: Vec<DocumentEntry> = Vec::new();
        let mut i: usize = 0;
        while i < self.documents.len()
            invariant
                i <= self.documents@.len(),
                entries@.len() == i,
                forall|k: int|
                    0 <= k < i ==> {
                        &&& (#[trigger] entries@[k])@.0 == self.documents@[k].id@
                        &&& entries@[k]@.1 == self.documents@[k].terms.listing()
                        &&& bag_of(entries@[k]@.1) == self.documents@[k].terms@
                        &&& positive_counts(entries@[k]@.1)
                        &&& distinct_terms(entries@[k]@.1)
                        &&& bag_of(entries@[k]@.1).len() <= usize::MAX
                    },
            decreases self.documents@.len() - i,
        {
            let id = self.documents[i].id.clone();
            let terms = self.documents[i].terms.entries();
            entries.push(DocumentEntry { id, terms });
            i += 1;
        }
        proof {
            let rows = document_rows(self.documents@);
            let listed = stored(entries@);
            assert forall|i: int| 0 <= i < listed.len() implies stored_rows(listed)[i]
                == rows[i] by {
                assert(listed[i] == entries@[i]@);
            }
            assert forall|i: int| 0 <= i < listed.len() implies listed[i]
                == self.stored_entries()[i] by {
                assert(listed[i] == entries@[i]@);
            }
            assert(listed =~= self.stored_entries());
            assert(stored_rows(listed) =~= rows);
            assert forall|i: int| 0 <= i < listed.len() implies entry_fault(listed, i) is None by {
                assert(listed[i] == entries@[i]@);
                assert(self.documents@[i].terms@.len() > 0);
                if exists|k: int| 0 <= k < i && (#[trigger] listed[k]).0 == listed[i].0 {
                    let k = choose|k: int| 0 <= k < i && (#[trigger] listed[k]).0 == listed[i].0;
                    assert(listed[k] == entries@[k]@);
                    assert(rows[k].0 != rows[i].0);
                }
            }
        }
        entries
    }

    /// The index that `entries` list, where no entry is at fault; else the
    /// first entry that is, with its fault.
    pub fn from_entries(entries: Vec<DocumentEntry>) -> (loaded: Result<Self, LoadError>)
        ensures
            match loaded {
                Ok(index) => {
                    &&& faultless(stored(entries@))
                    &&& index.stored_entries() == stored(entries@)
                    &&& index@ == index_of_rows(stored_rows(stored(entries@)))
                },
                Err(error) => {
                    &&& error.position < entries@.len()
                    &&& forall|i: int|
                        0 <= i < error.position ==> entry_fault(stored(entries@), i) is None
                    &&& entry_fault(stored(entries@), error.position as int) == Some(error.fault)
                },
            },
    {
        let ghost given = entries@;
        let ghost listed = stored(entries@);
        assert(listed.len() == entries.len());
        let mut documents: Vec<Document> = Vec::new();
        let mut position: usize = 0;
        proof {
            assert(document_rows(documents@) =~= stored_rows(listed).take(0));
            assert(documents@.map_values(
                |document: Document| (document.id@, document.terms.listing()),
            ) =~= listed.take(0));
        }
        for entry in it: entries
            invariant
                it.seq() == given,
                listed == stored(given),
                listed.len() <= usize::MAX,
                position == it.index(),
                document_rows(documents@) == stored_rows(listed).take(position as int),
                documents@.map_values(
                    |document: Document| (document.id@, document.terms.listing()),
                ) == listed.take(position as int),
                distinct_ids(document_rows(documents@)),
                forall|i: int| 0 <= i < documents@.len() ==> (#[trigger] documents@[i]).terms@.len() > 0,
                forall|i: int| 0 <= i < position ==> entry_fault(listed, i) is None,
        {
            assert(entry == given[position as int]);
            assert(entry@ == listed[position as int]);
            let DocumentEntry { id, terms } = entry;
            let frequencies = match TermFreq::from_entries(terms) {
                Ok(frequencies) => frequencies,
                Err(EntriesError::ZeroCount) => {
                    return Err(LoadError { position, fault: Fault::ZeroCount });
                },
                Err(EntriesError::DuplicateTerm) => {
                    return Err(LoadError { position, fault: Fault::DuplicateTerm });
                },
                Err(EntriesError::TooManyOccurrences) => {
                    return Err(LoadError { position, fault: Fault::TooManyOccurrences });
                },
            };
            if frequencies.is_empty() {
                return Err(LoadError { position, fault: Fault::EmptyDocument });
            }
            let ghost rows = document_rows(documents@);
            let ghost row = (id@, frequencies@);
            match Self::position(&documents, id.as_str()) {
                Some(at) => {
                    proof {
                        assert(rows.len() == documents@.len());
                        assert(stored_rows(listed).take(position as int).len() == position);
                        assert(rows[at as int] == stored_rows(listed).take(position as int)[at as int]);
                        assert(rows[at as int].0 == documents@[at as int].id@);
                        assert(stored_rows(listed)[at as int].0 == listed[at as int].0);
                        assert(listed[at as int].0 == listed[position as int].0);
                    }
                    return Err(LoadError { position, fault: Fault::DuplicateDocument });
                },
                None => {},
            }
            proof {
                if exists|k: int|
                    0 <= k < position && (#[trigger] listed[k]).0 == listed[position as int].0 {
                    let k = choose|k: int|
                        0 <= k < position && (#[trigger] listed[k]).0 == listed[position as int].0;
                    assert(rows[k] == stored_rows(listed).take(position as int)[k]);
                    assert(rows[k].0 == id@);
                }
                lemma_rows_push(rows, row);
            }
            let ghost before = documents@;
            documents.push(Document { id, terms: frequencies });
            proof {
                assert(document_rows(documents@) =~= rows.push(row));
                assert(rows.push(row) =~= stored_rows(listed).take(position + 1));
                assert(documents@.map_values(
                    |document: Document| (document.id@, document.terms.listing()),
                ) =~= listed.take(position as int).push(listed[position as int]));
                assert(listed.take(position as int).push(listed[position as int]) =~= listed.take(
                    position + 1,
                ));
                assert forall|i: int| 0 <= i < documents@.len() implies (
                #[trigger] documents@[i]).terms@.len() > 0 by {
                    if i < before.len() {
                        assert(documents@[i] == before[i]);
                    }
                }
            }
            position += 1;
        }
        proof {
            assert(stored_rows(listed).take(position as int) =~= stored_rows(listed));
            assert(listed.take(position as int) =~= listed);
        }
        Ok(CorpusIndex { documents })
    }

    /// A second index with the same documents, made by way of the entries:
    /// what `to_entries` hands out, `from_entries` takes back unchanged.
    pub fn duplicate(&self) -> (copy: Self)
        ensures
            copy@ == self@,
            copy.stored_entries() == self.stored_entries(),
    {
        match Self::from_entries(self.to_entries()) {
            Ok(copy) => copy,
            Err(_) => {
                proof {
                    assert(false);
                }
                CorpusIndex::new()
            },
        }
    }
}

} // verus!
