//! Ranking the documents of an index for a query.
//!
//! The relevance of a document is computed from quotients of counts, which
//! this module states exactly, by arithmetic on real numbers, which it leaves
//! to the caller: [`search`] takes the function that turns the quotients of
//! one document into a score, and orders the documents by what it returns.

use vstd::prelude::*;
use vstd::multiset::Multiset;
use vstd::seq_lib::{
    to_multiset_build, to_multiset_contains, to_multiset_insert, to_multiset_len,
    to_multiset_remove,
};
use vstd::string::StringSliceAdditionalSpecFns;
use vstd::utf8::{encode_utf8, encode_utf8_decode_utf8};
use crate::text::same_text;
use crate::corpus::{documents_with, CorpusIndex};
use crate::lexer::{texts, tokenize, tokens_of};
use crate::term_freq::{distinct, lemma_distinct, TermFreq};

verus! {

/// A quotient of two counts. The denominator of a quotient that this module
/// hands out is never 0.
#[derive(Debug, PartialEq, Eq, Clone, Copy, Structural)]
pub struct Ratio {
    pub numerator: usize,
    pub denominator: usize,
}

/// What one term of a query contributes to the score of one document: the
/// term frequency, and the quotient whose logarithm to base 10 is the inverse
/// document frequency.
#[derive(Debug)]
pub struct TermScore {
    pub term: String,
    pub tf: Ratio,
    pub idf: Ratio,
}

/// A document as it is ranked: its identifier, what each term of the query
/// contributes, and its score. A higher score is a better one.
#[derive(Debug)]
pub struct RankedResult {
    pub id: String,
    pub breakdown: Vec<TermScore>,
    pub score: u32,
}

/// `n`, or 1 where `n` is 0.
pub open spec fn at_least_one(n: nat) -> nat {
    if n == 0 {
        1
    } else {
        n
    }
}

/// Whether `ratio` is the term frequency of `term` in a document with the
/// tokens `document`: its count over the number of tokens. For a document
/// without tokens that is 0 over 1.
pub open spec fn is_tf(ratio: Ratio, document: Multiset<Seq<char>>, term: Seq<char>) -> bool {
    &&& ratio.numerator == document.count(term)
    &&& ratio.denominator == at_least_one(document.len())
}

/// Whether `ratio` is the quotient behind the inverse document frequency of
/// `term` in `index`: the number of documents over the number of documents
/// in which the term occurs, the latter taken as 1 where it is 0.
pub open spec fn is_idf(
    ratio: Ratio,
    index: Map<Seq<char>, Multiset<Seq<char>>>,
    term: Seq<char>,
) -> bool {
    &&& ratio.numerator == index.dom().len()
    &&& ratio.denominator == at_least_one(documents_with(index, term).len())
}

/// Whether the quotient `a` is at most the quotient `b`, for denominators
/// that are not 0.
pub open spec fn ratio_le(a: (nat, nat), b: (nat, nat)) -> bool {
    a.0 * b.1 <= b.0 * a.1
}

/// The quotient whose logarithm is the inverse document frequency does not
/// rise when the term occurs in more documents of a corpus of the same size.
pub proof fn lemma_idf_quotient_falls(documents: nat, fewer: nat, more: nat)
    requires
        fewer <= more,
    ensures
        ratio_le((documents, at_least_one(more)), (documents, at_least_one(fewer))),
{
    assert(documents * at_least_one(fewer) <= documents * at_least_one(more))
        by (nonlinear_arith)
        requires
            at_least_one(fewer) <= at_least_one(more),
    ;
}

/// The term frequency of `term` in a document.
pub fn calc_tf(terms: &TermFreq, term: &str) -> (tf: Ratio)
    ensures
        is_tf(tf, terms@, term@),
{
    let total = terms.total();
    Ratio { numerator: terms.count(term), denominator: if total == 0 { 1 } else { total } }
}

/// The quotient behind the inverse document frequency of `term` in `index`.
pub fn calc_idf(index: &CorpusIndex, term: &str) -> (idf: Ratio)
    ensures
        is_idf(idf, index@, term@),
{
    let containing = index.document_frequency(term);
    Ratio { numerator: index.len(), denominator: if containing == 0 { 1 } else { containing } }
}

/// What `term` contributes to each document of `index`: entry `i` is for
/// document `i` of the listing of the index.
pub fn calc_rate(index: &CorpusIndex, term: &str) -> (rates: Vec<TermScore>)
    ensures
        rates@.len() == index.listing().len(),
        forall|i: int|
            0 <= i < rates@.len() ==> {
                &&& (#[trigger] rates@[i]).term@ == term@
                &&& is_tf(rates@[i].tf, index.listing()[i].terms@, term@)
                &&& is_idf(rates@[i].idf, index@, term@)
            },
{
    let idf = calc_idf(index, term);
    let documents = index.documents();
    let mut rates: Vec<TermScore> = Vec::new();
    let mut i: usize = 0;
    while i < documents.len()
        invariant
            i <= documents@.len(),
            rates@.len() == i,
            is_idf(idf, index@, term@),
            forall|k: int|
                0 <= k < i ==> {
                    &&& (#[trigger] rates@[k]).term@ == term@
                    &&& is_tf(rates@[k].tf, documents@[k].terms@, term@)
                    &&& is_idf(rates@[k].idf, index@, term@)
                },
        decreases documents@.len() - i,
    {
        let tf = calc_tf(&documents[i].terms, term);
        rates.push(TermScore { term: String::from_str(term), tf, idf });
        i += 1;
    }
    rates
}

/// Whether the byte string `a` comes before `b` in the order of the
/// dictionary: at the first place where they differ `a` has the smaller
/// byte, or `a` ends there and `b` does not.
pub open spec fn bytes_precede(a: Seq<u8>, b: Seq<u8>) -> bool
    decreases a.len(),
{
    if b.len() == 0 {
        false
    } else if a.len() == 0 {
        true
    } else if a[0] != b[0] {
        a[0] < b[0]
    } else {
        bytes_precede(a.skip(1), b.skip(1))
    }
}

/// Whether the identifier `a` comes before `b`: the order of their UTF-8
/// encodings as byte strings.
pub open spec fn id_precedes(a: Seq<char>, b: Seq<char>) -> bool {
    bytes_precede(encode_utf8(a), encode_utf8(b))
}

/// No byte string comes before itself.
pub proof fn lemma_bytes_precede_irreflexive(a: Seq<u8>)
    ensures
        !bytes_precede(a, a),
    decreases a.len(),
{
    if a.len() > 0 {
        lemma_bytes_precede_irreflexive(a.skip(1));
    }
}

/// What comes before something that comes before `c` comes before `c`.
pub proof fn lemma_bytes_precede_transitive(a: Seq<u8>, b: Seq<u8>, c: Seq<u8>)
    requires
        bytes_precede(a, b),
        bytes_precede(b, c),
    ensures
        bytes_precede(a, c),
    decreases a.len(),
{
    if a.len() > 0 && a[0] == b[0] && b[0] == c[0] {
        lemma_bytes_precede_transitive(a.skip(1), b.skip(1), c.skip(1));
    }
}

/// Of two byte strings that differ, one comes before the other.
pub proof fn lemma_bytes_precede_total(a: Seq<u8>, b: Seq<u8>)
    requires
        !bytes_precede(a, b),
        !bytes_precede(b, a),
    ensures
        a == b,
    decreases a.len(),
{
    if a.len() == 0 || b.len() == 0 {
        assert(a =~= b);
    } else {
        lemma_bytes_precede_total(a.skip(1), b.skip(1));
        assert(a =~= seq![a[0]] + a.skip(1));
        assert(b =~= seq![b[0]] + b.skip(1));
    }
}

/// Of two identifiers that differ, one comes before the other.
pub proof fn lemma_id_order_is_total(a: Seq<char>, b: Seq<char>)
    requires
        !id_precedes(a, b),
        !id_precedes(b, a),
    ensures
        a == b,
{
    lemma_bytes_precede_total(encode_utf8(a), encode_utf8(b));
    encode_utf8_decode_utf8(a);
    encode_utf8_decode_utf8(b);
}

/// Whether the identifier `a` comes before `b`.
pub fn precedes(a: &str, b: &str) -> (before: bool)
    ensures
        before == id_precedes(a@, b@),
{
    let x = a.as_bytes();
    let y = b.as_bytes();
    let mut i: usize = 0;
    assert(x@.skip(0) =~= x@ && y@.skip(0) =~= y@);
    loop
        invariant
            i <= x@.len(),
            i <= y@.len(),
            x@ == encode_utf8(a@),
            y@ == encode_utf8(b@),
            bytes_precede(x@, y@) == bytes_precede(x@.skip(i as int), y@.skip(i as int)),
        decreases x@.len() - i,
    {
        if i >= y.len() {
            return false;
        }
        if i >= x.len() {
            return true;
        }
        if x[i] != y[i] {
            return x[i] < y[i];
        }
        proof {
            assert(x@.skip(i as int).skip(1) =~= x@.skip(i + 1));
            assert(y@.skip(i as int).skip(1) =~= y@.skip(i + 1));
        }
        i += 1;
    }
}

/// Whether `a` stands before `b` in a ranking: it has the higher score, or
/// the same score and the identifier that comes first.
pub open spec fn outranks(a: RankedResult, b: RankedResult) -> bool {
    a.score > b.score || (a.score == b.score && id_precedes(a.id@, b.id@))
}

/// Whether `list` is in the order of a ranking: nothing in it outranks what
/// stands before it.
pub open spec fn in_rank_order(list: Seq<RankedResult>) -> bool {
    forall|i: int, j: int| 0 <= i < j < list.len() ==> !outranks(#[trigger] list[j], #[trigger] list[i])
}

/// Whether `ranked` holds the first `limit` of `candidates` in the order
/// of a ranking, or all of them where they are fewer.
pub open spec fn is_ranking_of(
    ranked: Seq<RankedResult>,
    candidates: Seq<RankedResult>,
    limit: nat,
) -> bool {
    exists|full: Seq<RankedResult>|
        {
            &&& #[trigger] full.to_multiset() == candidates.to_multiset()
            &&& in_rank_order(full)
            &&& ranked == full.take(if limit <= full.len() { limit as int } else { full.len() as int })
        }
}

/// What stands in a ranking is one of the candidates.
pub proof fn lemma_ranked_are_candidates(
    ranked: Seq<RankedResult>,
    candidates: Seq<RankedResult>,
    limit: nat,
)
    requires
        is_ranking_of(ranked, candidates, limit),
    ensures
        forall|i: int| 0 <= i < ranked.len() ==> candidates.contains(#[trigger] ranked[i]),
{
    let full = choose|full: Seq<RankedResult>|
        {
            &&& #[trigger] full.to_multiset() == candidates.to_multiset()
            &&& in_rank_order(full)
            &&& ranked == full.take(
                if limit <= full.len() {
                    limit as int
                } else {
                    full.len() as int
                },
            )
        };
    assert forall|i: int| 0 <= i < ranked.len() implies candidates.contains(
        #[trigger] ranked[i],
    ) by {
        assert(ranked[i] == full[i]);
        assert(full.contains(full[i]));
        to_multiset_contains(full, full[i]);
        to_multiset_contains(candidates, full[i]);
    }
}

/// Nothing outranks itself, and what outranks something that outranks `c`
/// outranks `c`.
pub proof fn lemma_outranks_is_strict(a: RankedResult, b: RankedResult, c: RankedResult)
    ensures
        !outranks(a, a),
        outranks(a, b) && outranks(b, c) ==> outranks(a, c),
{
    lemma_bytes_precede_irreflexive(encode_utf8(a.id@));
    if outranks(a, b) && outranks(b, c) && a.score == b.score && b.score == c.score {
        lemma_bytes_precede_transitive(encode_utf8(a.id@), encode_utf8(b.id@), encode_utf8(c.id@));
    }
}

/// No two results of `list` have the same identifier.
pub open spec fn distinct_results(list: Seq<RankedResult>) -> bool {
    forall|i: int, j: int|
        0 <= i < j < list.len() ==> (#[trigger] list[i]).id@ != (#[trigger] list[j]).id@
}

/// A list that holds what a list with distinct identifiers holds, each
/// result as often, has distinct identifiers too.
proof fn lemma_distinct_results_permuted(list: Seq<RankedResult>, other: Seq<RankedResult>)
    requires
        distinct_results(list),
        list.to_multiset() == other.to_multiset(),
    ensures
        distinct_results(other),
{
    assert(list.no_duplicates()) by {
        assert forall|i: int, j: int|
            0 <= i < list.len() && 0 <= j < list.len() && i != j implies list[i] != list[j] by {
            if i < j {
                assert(list[i].id@ != list[j].id@);
            } else {
                assert(list[j].id@ != list[i].id@);
            }
        }
    }
    list.lemma_multiset_has_no_duplicates();
    other.lemma_multiset_has_no_duplicates_conv();
    assert forall|i: int, j: int| 0 <= i < j < other.len() implies (#[trigger] other[i]).id@ != (
    #[trigger] other[j]).id@ by {
        assert(other.contains(other[i]) && other.contains(other[j]));
        to_multiset_contains(other, other[i]);
        to_multiset_contains(other, other[j]);
        to_multiset_contains(list, other[i]);
        to_multiset_contains(list, other[j]);
        let p = choose|p: int| 0 <= p < list.len() && list[p] == other[i];
        let q = choose|q: int| 0 <= q < list.len() && list[q] == other[j];
        assert(other[i] != other[j]);
        if p < q {
            assert(list[p].id@ != list[q].id@);
        } else {
            assert(list[q].id@ != list[p].id@);
        }
    }
}

/// Two lists in the order of a ranking that hold the same results, with
/// distinct identifiers, are the same list.
proof fn lemma_rank_order_is_unique(x: Seq<RankedResult>, y: Seq<RankedResult>)
    requires
        x.to_multiset() == y.to_multiset(),
        in_rank_order(x),
        in_rank_order(y),
        distinct_results(x),
    ensures
        x == y,
    decreases x.len(),
{
    to_multiset_len(x);
    to_multiset_len(y);
    if x.len() == 0 {
        assert(x =~= y);
    } else {
        assert(x.contains(x[0]) && y.contains(y[0]));
        to_multiset_contains(x, x[0]);
        to_multiset_contains(y, x[0]);
        to_multiset_contains(y, y[0]);
        to_multiset_contains(x, y[0]);
        let k = choose|k: int| 0 <= k < y.len() && y[k] == x[0];
        let m = choose|m: int| 0 <= m < x.len() && x[m] == y[0];
        if k != 0 && m != 0 {
            assert(!outranks(y[k], y[0]));
            assert(!outranks(x[m], x[0]));
            lemma_id_order_is_total(x[0].id@, y[0].id@);
            assert(x[0].id@ != x[m].id@);
        }
        assert(x[0] == y[0]);
        let xs = x.skip(1);
        let ys = y.skip(1);
        assert(x.remove(0) =~= xs);
        assert(y.remove(0) =~= ys);
        to_multiset_remove(x, 0);
        to_multiset_remove(y, 0);
        assert forall|i: int, j: int| 0 <= i < j < xs.len() implies !outranks(
            #[trigger] xs[j],
            #[trigger] xs[i],
        ) by {
            assert(xs[i] == x[i + 1] && xs[j] == x[j + 1]);
        }
        assert forall|i: int, j: int| 0 <= i < j < ys.len() implies !outranks(
            #[trigger] ys[j],
            #[trigger] ys[i],
        ) by {
            assert(ys[i] == y[i + 1] && ys[j] == y[j + 1]);
        }
        assert forall|i: int, j: int| 0 <= i < j < xs.len() implies (#[trigger] xs[i]).id@ != (
        #[trigger] xs[j]).id@ by {
            assert(xs[i] == x[i + 1] && xs[j] == x[j + 1]);
        }
        lemma_rank_order_is_unique(xs, ys);
        assert(x =~= seq![x[0]] + xs);
        assert(y =~= seq![y[0]] + ys);
    }
}

/// Candidates with distinct identifiers have one ranking only.
pub proof fn lemma_ranking_is_unique(
    one: Seq<RankedResult>,
    other: Seq<RankedResult>,
    candidates: Seq<RankedResult>,
    limit: nat,
)
    requires
        distinct_results(candidates),
        is_ranking_of(one, candidates, limit),
        is_ranking_of(other, candidates, limit),
    ensures
        one == other,
{
    let x = choose|full: Seq<RankedResult>|
        {
            &&& #[trigger] full.to_multiset() == candidates.to_multiset()
            &&& in_rank_order(full)
            &&& one == full.take(
                if limit <= full.len() {
                    limit as int
                } else {
                    full.len() as int
                },
            )
        };
    let y = choose|full: Seq<RankedResult>|
        {
            &&& #[trigger] full.to_multiset() == candidates.to_multiset()
            &&& in_rank_order(full)
            &&& other == full.take(
                if limit <= full.len() {
                    limit as int
                } else {
                    full.len() as int
                },
            )
        };
    lemma_distinct_results_permuted(candidates, x);
    lemma_rank_order_is_unique(x, y);
}

/// Whether `a` stands before `b` in a ranking.
fn stands_before(a: &RankedResult, b: &RankedResult) -> (before: bool)
    ensures
        before == outranks(*a, *b),
{
    a.score > b.score || (a.score == b.score && precedes(a.id.as_str(), b.id.as_str()))
}

/// The `limit` best of `candidates`, best first: by falling score, and among
/// equal scores by rising identifier.
pub fn rank(candidates: Vec<RankedResult>, limit: usize) -> (ranked: Vec<RankedResult>)
    ensures
        ranked@.len() == if limit <= candidates@.len() { limit as nat } else { candidates@.len() },
        in_rank_order(ranked@),
        is_ranking_of(ranked@, candidates@, limit as nat),
        forall|i: int| 0 <= i < ranked@.len() ==> candidates@.contains(#[trigger] ranked@[i]),
{
    let ghost listed = candidates@;
    let mut ordered: Vec<RankedResult> = Vec::new();
    proof {
        assert(listed.take(0) =~= Seq::<RankedResult>::empty());
        assert(ordered@ =~= listed.take(0));
    }
    for candidate in it: candidates
        invariant
            it.seq() == listed,
            ordered@.len() == it.index(),
            ordered@.to_multiset() == listed.take(it.index()).to_multiset(),
            in_rank_order(ordered@),
    {
        let ghost before = ordered@;
        let mut at: usize = 0;
        while at < ordered.len() && !stands_before(&candidate, &ordered[at])
            invariant
                at <= ordered@.len(),
                forall|k: int| 0 <= k < at ==> !outranks(candidate, #[trigger] ordered@[k]),
            decreases ordered@.len() - at,
        {
            at += 1;
        }
        ordered.insert(at, candidate);
        proof {
            to_multiset_insert(before, at as int, candidate);
            to_multiset_build(listed.take(it.index()), candidate);
            assert(listed.take(it.index() + 1) =~= listed.take(it.index()).push(candidate));
            assert forall|i: int, j: int| 0 <= i < j < ordered@.len() implies !outranks(
                #[trigger] ordered@[j],
                #[trigger] ordered@[i],
            ) by {
                if j == at {
                    assert(ordered@[i] == before[i]);
                } else if i == at {
                    assert(ordered@[j] == before[j - 1]);
                    assert(outranks(candidate, before[at as int]));
                    lemma_outranks_is_strict(ordered@[j], candidate, before[at as int]);
                    lemma_outranks_is_strict(before[at as int], candidate, candidate);
                    if j - 1 > at {
                        assert(!outranks(before[j - 1], before[at as int]));
                    }
                } else {
                    let i0 = if i < at { i } else { i - 1 };
                    let j0 = if j < at { j } else { j - 1 };
                    assert(ordered@[i] == before[i0]);
                    assert(ordered@[j] == before[j0]);
                }
            }
        }
    }
    let ghost full = ordered@;
    proof {
        assert(listed.take(listed.len() as int) =~= listed);
        vstd::seq_lib::to_multiset_len(full);
        vstd::seq_lib::to_multiset_len(listed);
    }
    ordered.truncate(limit);
    proof {
        let kept = if limit <= full.len() { limit as int } else { full.len() as int };
        assert(ordered@ =~= full.take(kept));
        assert forall|i: int, j: int| 0 <= i < j < ordered@.len() implies !outranks(
            #[trigger] ordered@[j],
            #[trigger] ordered@[i],
        ) by {
            assert(ordered@[i] == full[i] && ordered@[j] == full[j]);
        }
        assert(is_ranking_of(ordered@, listed, limit as nat));
        lemma_ranked_are_candidates(ordered@, listed, limit as nat);
    }
    ordered
}

/// The terms of a query: its tokens in the order in which they first occur,
/// each once.
pub fn query_terms(query: &str) -> (terms: Vec<String>)
    ensures
        texts(terms@) == distinct(tokens_of(query@)),
{
    let tokens = tokenize(query);
    let mut terms: Vec<String> = Vec::new();
    let mut i: usize = 0;
    proof {
        assert(texts(tokens@).take(0) =~= Seq::<Seq<char>>::empty());
        assert(texts(terms@) =~= Seq::<Seq<char>>::empty());
    }
    while i < tokens.len()
        invariant
            i <= tokens@.len(),
            texts(terms@) == distinct(texts(tokens@).take(i as int)),
        decreases tokens@.len() - i,
    {
        let ghost found = terms@;
        let mut k: usize = 0;
        let mut known = false;
        while k < terms.len() && !known
            invariant
                k <= terms@.len(),
                i < tokens@.len(),
                known ==> texts(terms@).contains(tokens@[i as int]@),
                !known ==> forall|n: int| 0 <= n < k ==> texts(terms@)[n] != tokens@[i as int]@,
            decreases terms@.len() - k + if known { 0int } else { 1int },
        {
            if same_text(terms[k].as_str(), tokens[i].as_str()) {
                assert(texts(terms@)[k as int] == tokens@[i as int]@);
                known = true;
            } else {
                k += 1;
            }
        }
        proof {
            assert(texts(tokens@).take(i + 1).drop_last() =~= texts(tokens@).take(i as int));
            assert(texts(tokens@).take(i + 1).last() == tokens@[i as int]@);
        }
        if !known {
            terms.push(tokens[i].clone());
            proof {
                assert(texts(terms@) =~= texts(found).push(tokens@[i as int]@));
            }
        }
        i += 1;
    }
    assert(texts(tokens@).take(i as int) =~= texts(tokens@));
    terms
}

/// Whether `breakdown` lists, for each of `terms` in turn, what the term
/// contributes to the document with the tokens `document` in `index`.
pub open spec fn is_breakdown(
    breakdown: Seq<TermScore>,
    terms: Seq<Seq<char>>,
    document: Multiset<Seq<char>>,
    index: Map<Seq<char>, Multiset<Seq<char>>>,
) -> bool {
    &&& breakdown.len() == terms.len()
    &&& forall|j: int|
        0 <= j < terms.len() ==> {
            &&& (#[trigger] breakdown[j]).term@ == terms[j]
            &&& is_tf(breakdown[j].tf, document, terms[j])
            &&& is_idf(breakdown[j].idf, index, terms[j])
        }
}

/// Whether `result` is a document of `index` with its breakdown for `terms`
/// and a score that `score` gave for that breakdown.
pub open spec fn is_candidate<F: Fn(&Vec<TermScore>) -> u32>(
    result: RankedResult,
    index: Map<Seq<char>, Multiset<Seq<char>>>,
    terms: Seq<Seq<char>>,
    score: F,
) -> bool {
    &&& index.contains_key(result.id@)
    &&& is_breakdown(result.breakdown@, terms, index[result.id@], index)
    &&& call_ensures(score, (&result.breakdown,), result.score)
}

/// Whether `scored` holds each document of `index` once, as a candidate for
/// `terms` and `score`.
pub open spec fn is_scoring_of<F: Fn(&Vec<TermScore>) -> u32>(
    scored: Seq<RankedResult>,
    index: Map<Seq<char>, Multiset<Seq<char>>>,
    terms: Seq<Seq<char>>,
    score: F,
) -> bool {
    &&& scored.len() == index.dom().len()
    &&& forall|i: int, j: int|
        0 <= i < j < scored.len() ==> (#[trigger] scored[i]).id@ != (#[trigger] scored[j]).id@
    &&& forall|i: int| 0 <= i < scored.len() ==> is_candidate(#[trigger] scored[i], index, terms, score)
}

/// The `limit` documents of `index` that are most relevant to `query`, most
/// relevant first.
///
/// The terms of the query are its distinct tokens. Every document gets a
/// breakdown, with the term frequency and the quotient of the inverse
/// document frequency of each term, and the score that `score` returns for
/// the breakdown. The documents are ranked by falling score, and among equal
/// scores by rising identifier. A query without tokens has no result.
pub fn search<F: Fn(&Vec<TermScore>) -> u32>(
    index: &CorpusIndex,
    query: &str,
    limit: usize,
    score: F,
) -> (results: Vec<RankedResult>)
    requires
        forall|breakdown: Vec<TermScore>| call_requires(score, (&breakdown,)),
    ensures
        tokens_of(query@).len() == 0 ==> results@.len() == 0,
        tokens_of(query@).len() > 0 ==> exists|scored: Seq<RankedResult>|
            #[trigger] is_scoring_of(scored, index@, distinct(tokens_of(query@)), score)
                && is_ranking_of(results@, scored, limit as nat),
        forall|i: int|
            0 <= i < results@.len() ==> is_candidate(
                #[trigger] results@[i],
                index@,
                distinct(tokens_of(query@)),
                score,
            ),
        results@.len() <= limit,
        results@.len() <= index@.dom().len(),
        in_rank_order(results@),
{
    let terms = query_terms(query);
    proof {
        lemma_distinct(tokens_of(query@));
        if tokens_of(query@).len() > 0 {
            assert(tokens_of(query@).contains(tokens_of(query@)[0]));
            assert(distinct(tokens_of(query@)).contains(tokens_of(query@)[0]));
        }
    }
    if terms.len() == 0 {
        return Vec::new();
    }
    let mut idfs: Vec<Ratio> = Vec::new();
    let mut t: usize = 0;
    while t < terms.len()
        invariant
            t <= terms@.len(),
            idfs@.len() == t,
            forall|j: int| 0 <= j < t ==> is_idf(#[trigger] idfs@[j], index@, terms@[j]@),
        decreases terms@.len() - t,
    {
        idfs.push(calc_idf(index, terms[t].as_str()));
        t += 1;
    }
    let documents = index.documents();
    let ghost rows = crate::corpus::document_rows(documents@);
    let mut scored: Vec<RankedResult> = Vec::new();
    let mut d: usize = 0;
    while d < documents.len()
        invariant
            d <= documents@.len(),
            scored@.len() == d,
            rows == crate::corpus::document_rows(documents@),
            crate::corpus::index_of_rows(rows) == index@,
            crate::corpus::distinct_ids(rows),
            idfs@.len() == terms@.len(),
            forall|j: int| 0 <= j < terms@.len() ==> is_idf(#[trigger] idfs@[j], index@, terms@[j]@),
            forall|breakdown: Vec<TermScore>| call_requires(score, (&breakdown,)),
            forall|i: int|
                0 <= i < d ==> {
                    &&& (#[trigger] scored@[i]).id@ == documents@[i].id@
                    &&& is_breakdown(
                        scored@[i].breakdown@,
                        texts(terms@),
                        documents@[i].terms@,
                        index@,
                    )
                    &&& call_ensures(score, (&scored@[i].breakdown,), scored@[i].score)
                },
        decreases documents@.len() - d,
    {
        let mut breakdown: Vec<TermScore> = Vec::new();
        let mut j: usize = 0;
        while j < terms.len()
            invariant
                j <= terms@.len(),
                d < documents@.len(),
                breakdown@.len() == j,
                idfs@.len() == terms@.len(),
                forall|n: int|
                    0 <= n < terms@.len() ==> is_idf(#[trigger] idfs@[n], index@, terms@[n]@),
                forall|n: int|
                    0 <= n < j ==> {
                        &&& (#[trigger] breakdown@[n]).term@ == terms@[n]@
                        &&& is_tf(breakdown@[n].tf, documents@[d as int].terms@, terms@[n]@)
                        &&& is_idf(breakdown@[n].idf, index@, terms@[n]@)
                    },
            decreases terms@.len() - j,
        {
            let tf = calc_tf(&documents[d].terms, terms[j].as_str());
            breakdown.push(TermScore { term: terms[j].clone(), tf, idf: idfs[j] });
            j += 1;
        }
        let key = score(&breakdown);
        scored.push(RankedResult { id: documents[d].id.clone(), breakdown, score: key });
        d += 1;
    }
    proof {
        crate::corpus::lemma_rows_size(rows);
        assert forall|i: int, j: int| 0 <= i < j < scored@.len() implies (#[trigger] scored@[i]).id@
            != (#[trigger] scored@[j]).id@ by {
            assert(rows[i].0 != rows[j].0);
        }
        assert forall|i: int| 0 <= i < scored@.len() implies is_candidate(
            #[trigger] scored@[i],
            index@,
            distinct(tokens_of(query@)),
            score,
        ) by {
            crate::corpus::lemma_row_lookup(rows, i);
            assert(rows[i] == (documents@[i].id@, documents@[i].terms@));
        }
        assert(is_scoring_of(scored@, index@, distinct(tokens_of(query@)), score));
    }
    let ghost all = scored@;
    let results = rank(scored, limit);
    assert(is_scoring_of(all, index@, distinct(tokens_of(query@)), score) && is_ranking_of(
        results@,
        all,
        limit as nat,
    ));
    assert forall|i: int| 0 <= i < results@.len() implies is_candidate(
        #[trigger] results@[i],
        index@,
        distinct(tokens_of(query@)),
        score,
    ) by {
        assert(all.contains(results@[i]));
    }
    results
}

} // verus!
