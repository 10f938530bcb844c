use sroogle::corpus::{CorpusIndex, DocumentEntry, Fault, IndexOutcome, LoadError};
use sroogle::lexer::tokenize;
use sroogle::persist::{load_index, save_index, PersistenceError};
use sroogle::term_freq::{build_tf, index_document, EntriesError, TermCount, TermFreq};

fn pairs(terms: &TermFreq) -> Vec<(String, usize)> {
    let mut pairs: Vec<(String, usize)> =
        terms.entries().into_iter().map(|entry| (entry.term, entry.count)).collect();
    pairs.sort();
    pairs
}

fn contents(index: &CorpusIndex) -> Vec<(String, Vec<(String, usize)>)> {
    let mut all: Vec<(String, Vec<(String, usize)>)> = index
        .documents()
        .iter()
        .map(|document| (document.id.clone(), pairs(&document.terms)))
        .collect();
    all.sort();
    all
}

fn entry(id: &str, terms: &[(&str, usize)]) -> DocumentEntry {
    DocumentEntry {
        id: id.to_string(),
        terms: terms
            .iter()
            .map(|(term, count)| TermCount { term: term.to_string(), count: *count })
            .collect(),
    }
}

#[test]
fn every_token_is_counted() {
    let terms = index_document("the cat saw the other cat, the end");
    assert_eq!(terms.count("THE"), 3);
    assert_eq!(terms.count("CAT"), 2);
    assert_eq!(terms.count("SAW"), 1);
    assert_eq!(terms.count(","), 1);
    assert_eq!(terms.count("the"), 0);
    assert_eq!(terms.count("DOG"), 0);
    assert!(terms.contains("END"));
    assert!(!terms.contains("DOG"));
    assert_eq!(terms.len(), 6);
    assert_eq!(terms.total(), 9);
    assert!(!terms.is_empty());
}

#[test]
fn entries_keep_the_order_of_first_occurrence() {
    let terms = index_document("b a b c a b");
    let listed: Vec<(String, usize)> =
        terms.entries().into_iter().map(|entry| (entry.term, entry.count)).collect();
    assert_eq!(
        listed,
        vec![("B".to_string(), 3), ("A".to_string(), 2), ("C".to_string(), 1)]
    );
}

#[test]
fn counts_add_up_to_the_number_of_tokens() {
    for text in ["", "   ", "one", "a a a", "the cat sat on the mat, twice: the mat!", "1 2 3 1 2 1"] {
        let tokens = tokenize(text);
        let terms = build_tf(&tokens);
        let sum: usize = terms.entries().iter().map(|entry| entry.count).sum();
        assert_eq!(sum, tokens.len());
        assert_eq!(terms.total(), tokens.len());
    }
}

#[test]
fn no_tokens_give_empty_frequencies() {
    let terms = build_tf(&Vec::new());
    assert!(terms.is_empty());
    assert_eq!(terms.total(), 0);
    assert_eq!(terms.len(), 0);
    assert!(terms.entries().is_empty());
    assert!(TermFreq::new().is_empty());
}

#[test]
fn every_count_is_at_least_one() {
    let terms = index_document("x y z x");
    assert!(terms.entries().iter().all(|entry| entry.count >= 1));
}

#[test]
fn build_tf_does_not_depend_on_the_order_of_tokens() {
    let one = build_tf(&vec!["A".to_string(), "B".to_string(), "A".to_string()]);
    let other = build_tf(&vec!["A".to_string(), "A".to_string(), "B".to_string()]);
    assert_eq!(pairs(&one), pairs(&other));
}

#[test]
fn frequencies_are_rebuilt_from_their_entries() {
    let terms = index_document("to be or not to be");
    let again = TermFreq::from_entries(terms.entries()).unwrap();
    assert_eq!(pairs(&again), pairs(&terms));
    assert_eq!(again.total(), 6);
}

#[test]
fn entries_with_a_zero_count_are_refused() {
    let entries = vec![
        TermCount { term: "A".to_string(), count: 1 },
        TermCount { term: "B".to_string(), count: 0 },
        TermCount { term: "A".to_string(), count: 2 },
    ];
    assert_eq!(TermFreq::from_entries(entries).unwrap_err(), EntriesError::ZeroCount);
}

#[test]
fn entries_with_a_repeated_term_are_refused() {
    let entries = vec![
        TermCount { term: "A".to_string(), count: 1 },
        TermCount { term: "B".to_string(), count: 1 },
        TermCount { term: "A".to_string(), count: 2 },
    ];
    assert_eq!(TermFreq::from_entries(entries).unwrap_err(), EntriesError::DuplicateTerm);
}

#[test]
fn entries_that_count_too_much_are_refused() {
    let entries = vec![
        TermCount { term: "A".to_string(), count: usize::MAX },
        TermCount { term: "B".to_string(), count: 1 },
    ];
    assert_eq!(TermFreq::from_entries(entries).unwrap_err(), EntriesError::TooManyOccurrences);
    let fits = vec![
        TermCount { term: "A".to_string(), count: usize::MAX - 1 },
        TermCount { term: "B".to_string(), count: 1 },
    ];
    assert_eq!(TermFreq::from_entries(fits).unwrap().total(), usize::MAX);
}

#[test]
fn documents_are_found_by_identifier() {
    let mut index = CorpusIndex::new();
    assert!(index.is_empty());
    assert!(index.add_document("a.xml".to_string(), "the cat sat"));
    assert!(index.add_document("b.xml".to_string(), "the dog sat"));
    assert_eq!(index.len(), 2);
    assert!(!index.is_empty());
    assert_eq!(index.get("a.xml").unwrap().count("CAT"), 1);
    assert_eq!(index.get("b.xml").unwrap().count("CAT"), 0);
    assert!(index.get("c.xml").is_none());
    assert_eq!(index.document_frequency("THE"), 2);
    assert_eq!(index.document_frequency("DOG"), 1);
    assert_eq!(index.document_frequency("BIRD"), 0);
}

#[test]
fn a_document_added_again_replaces_the_first() {
    let mut index = CorpusIndex::new();
    assert!(index.add_document("a".to_string(), "one two"));
    assert!(index.add_document("b".to_string(), "three"));
    assert!(index.add_document("a".to_string(), "four four"));
    assert_eq!(index.len(), 2);
    assert_eq!(pairs(index.get("a").unwrap()), vec![("FOUR".to_string(), 2)]);
    let ids: Vec<String> = index.documents().iter().map(|document| document.id.clone()).collect();
    assert_eq!(ids, vec!["a".to_string(), "b".to_string()]);
}

#[test]
fn a_document_of_whitespace_is_left_out() {
    let mut index = CorpusIndex::new();
    assert!(!index.add_document("blank".to_string(), " \n\t  "));
    assert!(!index.add_document("nothing".to_string(), ""));
    assert!(index.is_empty());
    assert!(index.get("blank").is_none());
    assert_eq!(
        index.add_extracted("blank".to_string(), Some("  ".to_string())),
        IndexOutcome::Empty
    );
    assert!(index.is_empty());
}

#[test]
fn a_document_of_symbols_has_tokens() {
    let mut index = CorpusIndex::new();
    assert!(index.add_document("marks".to_string(), " ?! "));
    assert_eq!(index.len(), 1);
    assert_eq!(index.get("marks").unwrap().total(), 2);
}

#[test]
fn empty_frequencies_are_not_inserted() {
    let mut index = CorpusIndex::new();
    assert!(!index.insert("a".to_string(), TermFreq::new()));
    assert!(index.insert("a".to_string(), index_document("x")));
    assert!(!index.insert("a".to_string(), TermFreq::new()));
    assert_eq!(index.len(), 1);
    assert_eq!(index.get("a").unwrap().count("X"), 1);
}

#[test]
fn an_unreadable_file_does_not_stop_the_indexing() {
    let mut index = CorpusIndex::new();
    let first = index.add_extracted("broken.xml".to_string(), None);
    let second = index.add_extracted("good.xml".to_string(), Some("some text".to_string()));
    assert_eq!(first, IndexOutcome::Unreadable);
    assert_eq!(second, IndexOutcome::Indexed);
    assert_eq!(
        contents(&index),
        vec![("good.xml".to_string(), vec![("SOME".to_string(), 1), ("TEXT".to_string(), 1)])]
    );
}

#[test]
fn an_index_is_rebuilt_from_its_entries() {
    let mut index = CorpusIndex::new();
    index.add_document("a".to_string(), "the cat sat");
    index.add_document("b".to_string(), "the dog sat, the dog ran");
    let again = CorpusIndex::from_entries(index.to_entries()).unwrap();
    assert_eq!(contents(&again), contents(&index));
    assert_eq!(contents(&index.duplicate()), contents(&index));
}

#[test]
fn faulty_entries_are_refused_with_their_position() {
    let good = || entry("a", &[("X", 1)]);
    let cases: Vec<(DocumentEntry, Fault)> = vec![
        (entry("b", &[("X", 1), ("Y", 0)]), Fault::ZeroCount),
        (entry("b", &[("X", 1), ("X", 2)]), Fault::DuplicateTerm),
        (entry("b", &[("X", usize::MAX), ("Y", 1)]), Fault::TooManyOccurrences),
        (entry("b", &[]), Fault::EmptyDocument),
        (entry("a", &[("Z", 1)]), Fault::DuplicateDocument),
    ];
    for (faulty, fault) in cases {
        let error = CorpusIndex::from_entries(vec![good(), faulty, entry("c", &[])]).unwrap_err();
        assert_eq!(error, LoadError { position: 1, fault });
    }
}

#[test]
fn the_first_fault_of_an_entry_is_reported() {
    let error =
        CorpusIndex::from_entries(vec![entry("a", &[("X", 0), ("X", 1)])]).unwrap_err();
    assert_eq!(error, LoadError { position: 0, fault: Fault::ZeroCount });
}

#[test]
fn an_index_survives_saving_and_loading() {
    let mut index = CorpusIndex::new();
    index.add_document("docs/a.xml".to_string(), "the cat sat");
    index.add_document("docs/b.xml".to_string(), "the \"dog\" sat, the dog ran \u{4e16}\u{754c}");
    index.add_document("z".to_string(), "1 2 2 3 3 3");
    let json = save_index(&index).unwrap();
    let loaded = load_index(json.as_bytes()).unwrap();
    assert_eq!(contents(&loaded), contents(&index));
    assert_eq!(save_index(&loaded).unwrap(), json);
}

#[test]
fn an_empty_index_survives_saving_and_loading() {
    let json = save_index(&CorpusIndex::new()).unwrap();
    assert_eq!(json, "{}");
    assert!(load_index(json.as_bytes()).unwrap().is_empty());
}

#[test]
fn the_stored_form_is_an_object_of_objects_of_counts() {
    let mut index = CorpusIndex::new();
    index.add_document("b".to_string(), "x y x");
    index.add_document("a".to_string(), "z");
    let json = save_index(&index).unwrap();
    let value: serde_json::Value = serde_json::from_str(&json).unwrap();
    assert_eq!(value["b"]["X"], serde_json::Value::from(2));
    assert_eq!(value["b"]["Y"], serde_json::Value::from(1));
    assert_eq!(value["a"]["Z"], serde_json::Value::from(1));
    assert_eq!(value.as_object().unwrap().len(), 2);
    assert_eq!(json, "{\n  \"a\": {\n    \"Z\": 1\n  },\n  \"b\": {\n    \"X\": 2,\n    \"Y\": 1\n  }\n}");
}

#[test]
fn a_stored_index_is_loaded() {
    let index = load_index(b"{\"a\": {\"CAT\": 2, \"THE\": 1}, \"b\": {\"DOG\": 1}}").unwrap();
    assert_eq!(
        contents(&index),
        vec![
            ("a".to_string(), vec![("CAT".to_string(), 2), ("THE".to_string(), 1)]),
            ("b".to_string(), vec![("DOG".to_string(), 1)]),
        ]
    );
}

#[test]
fn text_that_is_not_a_stored_index_is_refused() {
    for text in ["", "not json", "[1, 2]", "{\"a\": 1}", "{\"a\": {\"X\": -1}}", "{\"a\": {\"X\": \"1\"}}", "{\"a\": {}} x"] {
        assert_eq!(load_index(text.as_bytes()).unwrap_err(), PersistenceError::Malformed);
    }
}

#[test]
fn a_stored_index_with_a_fault_is_refused() {
    assert_eq!(
        load_index(b"{\"a\": {\"X\": 1}, \"b\": {}}").unwrap_err(),
        PersistenceError::Faulty(LoadError { position: 1, fault: Fault::EmptyDocument })
    );
    assert_eq!(
        load_index(b"{\"a\": {\"X\": 0}}").unwrap_err(),
        PersistenceError::Faulty(LoadError { position: 0, fault: Fault::ZeroCount })
    );
}
