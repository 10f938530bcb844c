use sroogle::corpus::CorpusIndex;
use sroogle::rank::{
    calc_idf, calc_rate, calc_tf, precedes, query_terms, rank, search, RankedResult, Ratio,
    TermScore,
};
use sroogle::term_freq::{index_document, TermFreq};

fn value(ratio: Ratio) -> f32 {
    ratio.numerator as f32 / ratio.denominator as f32
}

/// The TF-IDF score of a breakdown as a key that grows with the score.
fn tf_idf(breakdown: &Vec<TermScore>) -> u32 {
    let total: f32 = breakdown.iter().map(|term| value(term.tf) * value(term.idf).log10()).sum();
    assert!(total >= 0.0);
    total.to_bits()
}

fn corpus(documents: &[(&str, &str)]) -> CorpusIndex {
    let mut index = CorpusIndex::new();
    for (id, text) in documents {
        index.add_document(id.to_string(), text);
    }
    index
}

fn ids(results: &Vec<RankedResult>) -> Vec<&str> {
    results.iter().map(|result| result.id.as_str()).collect()
}

fn candidate(id: &str, score: u32) -> RankedResult {
    RankedResult { id: id.to_string(), breakdown: Vec::new(), score }
}

#[test]
fn the_document_with_the_term_ranks_first() {
    let index = corpus(&[("A", "the cat sat"), ("B", "the dog sat")]);
    let results = search(&index, "cat", 5, tf_idf);
    assert_eq!(ids(&results), vec!["A", "B"]);
    assert!(results[0].score > results[1].score);
    assert_eq!(f32::from_bits(results[1].score), 0.0);
    let expected = (1.0f32 / 3.0) * 2.0f32.log10();
    assert_eq!(f32::from_bits(results[0].score), expected);
}

#[test]
fn the_order_of_insertion_does_not_decide() {
    let index = corpus(&[("B", "the dog sat"), ("A", "the cat sat")]);
    assert_eq!(ids(&search(&index, "cat", 5, tf_idf)), vec!["A", "B"]);
    assert_eq!(ids(&search(&index, "dog", 5, tf_idf)), vec!["B", "A"]);
}

#[test]
fn an_empty_query_has_no_result() {
    let index = corpus(&[("A", "the cat sat"), ("B", "the dog sat")]);
    assert!(search(&index, "", 5, tf_idf).is_empty());
    assert!(search(&index, " \t\n ", 5, tf_idf).is_empty());
}

#[test]
fn an_empty_index_has_no_result() {
    assert!(search(&CorpusIndex::new(), "cat", 5, tf_idf).is_empty());
}

#[test]
fn no_more_results_than_asked_for() {
    let index = corpus(&[
        ("d1", "fish"),
        ("d2", "fish water"),
        ("d3", "fish water sand"),
        ("d4", "fish water sand reef"),
        ("d5", "fish water sand reef wave"),
        ("d6", "nothing of the kind"),
    ]);
    let results = search(&index, "fish", 2, tf_idf);
    assert_eq!(ids(&results), vec!["d1", "d2"]);
    assert!(results[0].score > results[1].score);
    let all = search(&index, "fish", 10, tf_idf);
    assert_eq!(ids(&all), vec!["d1", "d2", "d3", "d4", "d5", "d6"]);
    for pair in all.windows(2) {
        assert!(pair[0].score >= pair[1].score);
    }
    assert!(search(&index, "fish", 0, tf_idf).is_empty());
    assert_eq!(search(&index, "fish", 6, tf_idf).len(), 6);
}

#[test]
fn equal_scores_are_ordered_by_identifier() {
    let index = corpus(&[("b", "x y"), ("a", "x z"), ("B", "x w"), ("ab", "x v"), ("", "x u")]);
    let results = search(&index, "x", 10, tf_idf);
    assert_eq!(ids(&results), vec!["", "B", "a", "ab", "b"]);
    assert!(results.iter().all(|result| result.score == results[0].score));
}

#[test]
fn a_term_in_no_document_scores_nothing() {
    let index = corpus(&[("b", "the dog"), ("a", "the cat")]);
    let results = search(&index, "bird", 5, tf_idf);
    assert_eq!(ids(&results), vec!["a", "b"]);
    for result in &results {
        assert_eq!(f32::from_bits(result.score), 0.0);
        assert_eq!(result.breakdown[0].idf, Ratio { numerator: 2, denominator: 1 });
        assert_eq!(result.breakdown[0].tf, Ratio { numerator: 0, denominator: 2 });
    }
}

#[test]
fn the_breakdown_lists_each_term_of_the_query_once() {
    let index = corpus(&[("A", "the cat sat"), ("B", "the dog sat on dog")]);
    let results = search(&index, "Dog the DOG, cat", 5, tf_idf);
    assert_eq!(ids(&results), vec!["B", "A"]);
    let b = &results[0];
    let terms: Vec<&str> = b.breakdown.iter().map(|term| term.term.as_str()).collect();
    assert_eq!(terms, vec!["DOG", "THE", ",", "CAT"]);
    assert_eq!(b.breakdown[0].tf, Ratio { numerator: 2, denominator: 5 });
    assert_eq!(b.breakdown[0].idf, Ratio { numerator: 2, denominator: 1 });
    assert_eq!(b.breakdown[1].tf, Ratio { numerator: 1, denominator: 5 });
    assert_eq!(b.breakdown[1].idf, Ratio { numerator: 2, denominator: 2 });
    assert_eq!(b.breakdown[2].tf, Ratio { numerator: 0, denominator: 5 });
    assert_eq!(b.breakdown[2].idf, Ratio { numerator: 2, denominator: 1 });
    assert_eq!(b.breakdown[3].tf, Ratio { numerator: 0, denominator: 5 });
    assert_eq!(b.breakdown[3].idf, Ratio { numerator: 2, denominator: 1 });
    let a = &results[1];
    assert_eq!(a.breakdown[3].tf, Ratio { numerator: 1, denominator: 3 });
}

#[test]
fn the_score_is_what_the_scoring_function_returns() {
    let index = corpus(&[("a", "x"), ("b", "x x y"), ("c", "y")]);
    let results = search(&index, "x", 5, |breakdown: &Vec<TermScore>| {
        breakdown[0].tf.numerator as u32
    });
    assert_eq!(ids(&results), vec!["b", "a", "c"]);
    let scores: Vec<u32> = results.iter().map(|result| result.score).collect();
    assert_eq!(scores, vec![2, 1, 0]);
}

#[test]
fn query_terms_are_the_distinct_tokens() {
    assert_eq!(query_terms("b a B c a"), vec!["B".to_string(), "A".to_string(), "C".to_string()]);
    assert_eq!(query_terms("  "), Vec::<String>::new());
}

#[test]
fn candidates_are_ranked_by_score_and_identifier() {
    let ranked = rank(
        vec![
            candidate("m", 1),
            candidate("z", 7),
            candidate("a", 1),
            candidate("k", 9),
            candidate("b", 7),
        ],
        4,
    );
    let listed: Vec<(&str, u32)> =
        ranked.iter().map(|result| (result.id.as_str(), result.score)).collect();
    assert_eq!(listed, vec![("k", 9), ("b", 7), ("z", 7), ("a", 1)]);
    assert!(rank(Vec::new(), 3).is_empty());
    assert!(rank(vec![candidate("a", 1)], 0).is_empty());
    assert_eq!(rank(vec![candidate("a", 1)], usize::MAX).len(), 1);
}

#[test]
fn candidates_with_the_same_identifier_are_all_kept() {
    let ranked = rank(vec![candidate("a", 1), candidate("a", 1), candidate("a", 2)], 5);
    let scores: Vec<u32> = ranked.iter().map(|result| result.score).collect();
    assert_eq!(scores, vec![2, 1, 1]);
}

#[test]
fn identifiers_are_ordered_as_strings_are() {
    let ids = ["", "a", "ab", "b", "B", "\u{e9}", "z", "\u{4e16}", "a\u{0}", "\u{10ffff}"];
    for a in ids {
        for b in ids {
            assert_eq!(precedes(a, b), a < b);
        }
    }
}

#[test]
fn term_frequency_is_count_over_total() {
    let terms = index_document("a b a c");
    assert_eq!(calc_tf(&terms, "A"), Ratio { numerator: 2, denominator: 4 });
    assert_eq!(calc_tf(&terms, "C"), Ratio { numerator: 1, denominator: 4 });
    assert_eq!(calc_tf(&terms, "Z"), Ratio { numerator: 0, denominator: 4 });
}

#[test]
fn term_frequency_of_an_empty_document_is_zero() {
    let tf = calc_tf(&TermFreq::new(), "A");
    assert_eq!(tf, Ratio { numerator: 0, denominator: 1 });
    assert_eq!(value(tf), 0.0);
}

#[test]
fn inverse_document_frequency_is_documents_over_documents_with_the_term() {
    let index = corpus(&[("a", "x y"), ("b", "x"), ("c", "z"), ("d", "x z")]);
    assert_eq!(calc_idf(&index, "X"), Ratio { numerator: 4, denominator: 3 });
    assert_eq!(calc_idf(&index, "Z"), Ratio { numerator: 4, denominator: 2 });
    assert_eq!(calc_idf(&index, "Y"), Ratio { numerator: 4, denominator: 1 });
    assert_eq!(calc_idf(&index, "Q"), Ratio { numerator: 4, denominator: 1 });
    assert_eq!(value(calc_idf(&index, "Q")).log10(), 4.0f32.log10());
    assert_eq!(calc_idf(&CorpusIndex::new(), "X"), Ratio { numerator: 0, denominator: 1 });
}

#[test]
fn inverse_document_frequency_falls_as_more_documents_hold_the_term() {
    let texts = ["t", "t", "t", "t", "t", "t"];
    let mut last = f32::INFINITY;
    for holding in 0..=texts.len() {
        let mut index = CorpusIndex::new();
        for (i, text) in texts.iter().enumerate() {
            let text = if i < holding { *text } else { "other" };
            index.add_document(format!("d{i}"), text);
        }
        let idf = calc_idf(&index, "T");
        assert_eq!(idf.numerator, 6);
        assert_eq!(idf.denominator, holding.max(1));
        let now = value(idf).log10();
        assert!(now <= last);
        last = now;
    }
    assert_eq!(last, 0.0);
}

#[test]
fn rates_are_listed_document_by_document() {
    let index = corpus(&[("a", "x y"), ("b", "y"), ("c", "x x x")]);
    let rates = calc_rate(&index, "X");
    assert_eq!(rates.len(), 3);
    let tfs: Vec<Ratio> = rates.iter().map(|rate| rate.tf).collect();
    assert_eq!(
        tfs,
        vec![
            Ratio { numerator: 1, denominator: 2 },
            Ratio { numerator: 0, denominator: 1 },
            Ratio { numerator: 3, denominator: 3 },
        ]
    );
    for rate in &rates {
        assert_eq!(rate.term, "X");
        assert_eq!(rate.idf, Ratio { numerator: 3, denominator: 2 });
    }
}
