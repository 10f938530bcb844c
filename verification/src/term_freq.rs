//! The term frequencies of one document.
//!
//! A [`TermFreq`] is viewed as the multiset of the tokens it was built from:
//! the count of a term is how often it occurs in the multiset, and the size
//! of the multiset is the number of tokens, each occurrence counted.

use vstd::prelude::*;
use vstd::multiset::Multiset;
use vstd::seq_lib::{to_multiset_build, to_multiset_contains, to_multiset_len};
use crate::text::same_text;
use crate::lexer::{texts, tokenize, tokens_of};

verus! {

/// A term with the number of times it occurs.
#[derive(Debug)]
pub struct TermCount {
    pub term: String,
    pub count: usize,
}

/// Why a list of entries is not the term frequencies of a document.
#[derive(Debug, PartialEq, Eq, Clone, Copy, Structural)]
pub enum EntriesError {
    /// An entry has the count 0.
    ZeroCount,
    /// Two entries have the same term.
    DuplicateTerm,
    /// The counts add up to more than `usize::MAX`.
    TooManyOccurrences,
}

/// A term and its count as contracts see them.
pub type Count = (Seq<char>, nat);

impl View for TermCount {
    type V = Count;

    open spec fn view(&self) -> Count {
        (self.term@, self.count as nat)
    }
}

/// The terms and counts of a list of entries.
pub open spec fn counts(entries: Seq<TermCount>) -> Seq<Count> {
    entries.map_values(|entry: TermCount| entry@)
}

/// The terms of a list of counts, in order.
pub open spec fn terms_of(entries: Seq<Count>) -> Seq<Seq<char>> {
    entries.map_values(|entry: Count| entry.0)
}

/// The elements of `tokens` in the order in which they first occur, each
/// once.
pub open spec fn distinct(tokens: Seq<Seq<char>>) -> Seq<Seq<char>>
    decreases tokens.len(),
{
    if tokens.len() == 0 {
        Seq::empty()
    } else {
        let front = distinct(tokens.drop_last());
        if front.contains(tokens.last()) {
            front
        } else {
            front.push(tokens.last())
        }
    }
}

/// `distinct` holds what the sequence holds, and nothing twice.
pub proof fn lemma_distinct(tokens: Seq<Seq<char>>)
    ensures
        distinct(tokens).no_duplicates(),
        distinct(tokens).len() <= tokens.len(),
        forall|token: Seq<char>| distinct(tokens).contains(token) <==> tokens.contains(token),
    decreases tokens.len(),
{
    if tokens.len() > 0 {
        let front = tokens.drop_last();
        let last = tokens.last();
        let kept = distinct(front);
        let all = distinct(tokens);
        lemma_distinct(front);
        if !kept.contains(last) {
            assert(all == kept.push(last));
            assert forall|i: int, j: int|
                0 <= i < all.len() && 0 <= j < all.len() && i != j implies all[i] != all[j] by {
                if i < kept.len() && j < kept.len() {
                    assert(all[i] == kept[i] && all[j] == kept[j]);
                } else if i < kept.len() {
                    assert(kept[i] == all[i]);
                    assert(kept.contains(all[i]));
                } else {
                    assert(kept[j] == all[j]);
                    assert(kept.contains(all[j]));
                }
            }
        }
        assert forall|token: Seq<char>| all.contains(token) <==> tokens.contains(token) by {
            if tokens.contains(token) {
                let i = choose|i: int| 0 <= i < tokens.len() && tokens[i] == token;
                if i < front.len() {
                    assert(front[i] == token);
                    assert(front.contains(token));
                    assert(kept.contains(token));
                    let k = choose|k: int| 0 <= k < kept.len() && kept[k] == token;
                    assert(all[k] == token);
                } else {
                    assert(token == last);
                    if kept.contains(last) {
                        assert(all.contains(token));
                    } else {
                        assert(all[kept.len() as int] == token);
                    }
                }
            }
            if all.contains(token) {
                let k = choose|k: int| 0 <= k < all.len() && all[k] == token;
                if k < kept.len() {
                    assert(kept[k] == token);
                    assert(kept.contains(token));
                    assert(front.contains(token));
                    let i = choose|i: int| 0 <= i < front.len() && front[i] == token;
                    assert(tokens[i] == token);
                } else {
                    assert(tokens[tokens.len() - 1] == token);
                }
            }
        }
    }
}

/// The terms of `tokens` in the order in which they first occur, each with
/// the number of times it occurs.
pub open spec fn count_list(tokens: Seq<Seq<char>>) -> Seq<Count> {
    distinct(tokens).map_values(|term: Seq<char>| (term, tokens.to_multiset().count(term)))
}

/// `n` occurrences of `term`, and nothing else.
pub open spec fn repeated(term: Seq<char>, n: nat) -> Multiset<Seq<char>>
    decreases n,
{
    if n == 0 {
        Multiset::empty()
    } else {
        repeated(term, (n - 1) as nat).insert(term)
    }
}

/// The occurrences that a list of counts stands for: each term as many
/// times as its count says.
pub open spec fn bag_of(entries: Seq<Count>) -> Multiset<Seq<char>>
    decreases entries.len(),
{
    if entries.len() == 0 {
        Multiset::empty()
    } else {
        bag_of(entries.drop_last()).add(repeated(entries.last().0, entries.last().1))
    }
}

/// No two entries have the same term.
pub open spec fn distinct_terms(entries: Seq<Count>) -> bool {
    forall|i: int, j: int|
        0 <= i < j < entries.len() ==> (#[trigger] entries[i]).0 != (#[trigger] entries[j]).0
}

/// Every entry counts at least one occurrence.
pub open spec fn positive_counts(entries: Seq<Count>) -> bool {
    forall|i: int| 0 <= i < entries.len() ==> (#[trigger] entries[i]).1 >= 1
}

/// Whether `entries` can be held as the term frequencies of a document.
pub open spec fn valid_entries(entries: Seq<Count>) -> bool {
    &&& positive_counts(entries)
    &&& distinct_terms(entries)
    &&& bag_of(entries).len() <= usize::MAX
}

/// What `repeated` holds.
pub proof fn lemma_repeated(term: Seq<char>, n: nat)
    ensures
        repeated(term, n).count(term) == n,
        forall|other: Seq<char>| other != term ==> repeated(term, n).count(other) == 0,
        repeated(term, n).len() == n,
    decreases n,
{
    broadcast use vstd::multiset::group_multiset_axioms;

    if n > 0 {
        lemma_repeated(term, (n - 1) as nat);
    }
}

/// Distinct terms and positive counts hold of every prefix.
pub proof fn lemma_valid_prefix(entries: Seq<Count>, n: int)
    requires
        0 <= n <= entries.len(),
    ensures
        distinct_terms(entries) ==> distinct_terms(entries.take(n)),
        positive_counts(entries) ==> positive_counts(entries.take(n)),
{
    let front = entries.take(n);
    if distinct_terms(entries) {
        assert forall|i: int, j: int| 0 <= i < j < front.len() implies (#[trigger] front[i]).0 != (
        #[trigger] front[j]).0 by {
            assert(front[i] == entries[i] && front[j] == entries[j]);
        }
    }
    if positive_counts(entries) {
        assert forall|i: int| 0 <= i < front.len() implies (#[trigger] front[i]).1 >= 1 by {
            assert(front[i] == entries[i]);
        }
    }
}

/// How often a term occurs in `bag_of`: not at all where no entry has it,
/// and as often as its entry says where the terms are distinct.
pub proof fn lemma_bag_count(entries: Seq<Count>, term: Seq<char>)
    ensures
        (forall|i: int| 0 <= i < entries.len() ==> (#[trigger] entries[i]).0 != term) ==> bag_of(
            entries,
        ).count(term) == 0,
        distinct_terms(entries) ==> forall|i: int|
            0 <= i < entries.len() && (#[trigger] entries[i]).0 == term ==> bag_of(entries).count(
                term,
            ) == entries[i].1,
    decreases entries.len(),
{
    broadcast use vstd::multiset::group_multiset_axioms;

    if entries.len() > 0 {
        let front = entries.drop_last();
        let last = entries.last();
        lemma_bag_count(front, term);
        lemma_repeated(last.0, last.1);
        lemma_valid_prefix(entries, entries.len() - 1);
        assert(front =~= entries.take(entries.len() - 1));
        if distinct_terms(entries) {
            assert forall|i: int|
                0 <= i < entries.len() && (#[trigger] entries[i]).0 == term implies bag_of(
                entries,
            ).count(term) == entries[i].1 by {
                if i < front.len() {
                    assert(front[i] == entries[i]);
                    assert(entries[i].0 != entries[entries.len() - 1].0);
                } else {
                    assert forall|k: int| 0 <= k < front.len() implies (#[trigger] front[k]).0
                        != term by {
                        assert(front[k] == entries[k]);
                        assert(entries[k].0 != entries[entries.len() - 1].0);
                    }
                }
            }
        }
        if forall|i: int| 0 <= i < entries.len() ==> (#[trigger] entries[i]).0 != term {
            assert forall|k: int| 0 <= k < front.len() implies (#[trigger] front[k]).0 != term by {
                assert(front[k] == entries[k]);
            }
            assert(entries[entries.len() - 1].0 != term);
        }
    }
}

/// Appending an entry adds its occurrences.
pub proof fn lemma_bag_push(entries: Seq<Count>, entry: Count)
    ensures
        bag_of(entries.push(entry)) == bag_of(entries).add(repeated(entry.0, entry.1)),
{
    assert(entries.push(entry).drop_last() =~= entries);
}

/// Raising the count of one entry by one adds one occurrence of its term.
pub proof fn lemma_bag_increment(entries: Seq<Count>, at: int, entry: Count)
    requires
        0 <= at < entries.len(),
        entry.0 == entries[at].0,
        entry.1 == entries[at].1 + 1,
    ensures
        bag_of(entries.update(at, entry)) == bag_of(entries).insert(entry.0),
    decreases entries.len(),
{
    broadcast use vstd::multiset::group_multiset_axioms;

    let updated = entries.update(at, entry);
    if at == entries.len() - 1 {
        assert(updated.drop_last() =~= entries.drop_last());
        assert(bag_of(updated) =~= bag_of(entries).insert(entry.0));
    } else {
        lemma_bag_increment(entries.drop_last(), at, entry);
        assert(updated.drop_last() =~= entries.drop_last().update(at, entry));
        assert(bag_of(updated) =~= bag_of(entries).insert(entry.0));
    }
}

/// The occurrences of a prefix are among those of the whole list.
pub proof fn lemma_bag_prefix(entries: Seq<Count>, n: int)
    requires
        0 <= n <= entries.len(),
    ensures
        bag_of(entries.take(n)).len() <= bag_of(entries).len(),
    decreases entries.len(),
{
    broadcast use vstd::multiset::group_multiset_axioms;

    if n == entries.len() {
        assert(entries.take(n) =~= entries);
    } else {
        lemma_bag_prefix(entries.drop_last(), n);
        assert(entries.drop_last().take(n) =~= entries.take(n));
    }
}

/// The occurrences of the first `n + 1` entries are those of the first `n`
/// and those of entry `n`.
pub proof fn lemma_bag_step(entries: Seq<Count>, n: int)
    requires
        0 <= n < entries.len(),
    ensures
        bag_of(entries.take(n + 1)) == bag_of(entries.take(n)).add(
            repeated(entries[n].0, entries[n].1),
        ),
        bag_of(entries.take(n + 1)).len() == bag_of(entries.take(n)).len() + entries[n].1,
{
    broadcast use vstd::multiset::group_multiset_axioms;

    assert(entries.take(n + 1).drop_last() =~= entries.take(n));
    lemma_repeated(entries[n].0, entries[n].1);
}

/// The terms that occur are the terms of the entries; with distinct terms
/// and positive counts there are as many of them as there are entries.
pub proof fn lemma_bag_terms(entries: Seq<Count>)
    requires
        distinct_terms(entries),
        positive_counts(entries),
    ensures
        bag_of(entries).dom().finite(),
        bag_of(entries).dom().len() == entries.len(),
        forall|term: Seq<char>|
            bag_of(entries).dom().contains(term) <==> exists|i: int|
                0 <= i < entries.len() && (#[trigger] entries[i]).0 == term,
    decreases entries.len(),
{
    broadcast use vstd::multiset::group_multiset_axioms;

    let terms = bag_of(entries).dom();
    if entries.len() == 0 {
        assert(terms =~= Set::<Seq<char>>::empty());
    } else {
        let front = entries.drop_last();
        let last = entries.last();
        lemma_valid_prefix(entries, entries.len() - 1);
        assert(front =~= entries.take(entries.len() - 1));
        lemma_bag_terms(front);
        lemma_repeated(last.0, last.1);
        assert(entries[entries.len() - 1].1 >= 1);
        assert(!bag_of(front).dom().contains(last.0)) by {
            if bag_of(front).dom().contains(last.0) {
                let i = choose|i: int| 0 <= i < front.len() && (#[trigger] front[i]).0 == last.0;
                assert(front[i] == entries[i]);
                assert(entries[i].0 != entries[entries.len() - 1].0);
            }
        }
        assert(terms =~= bag_of(front).dom().insert(last.0));
        assert forall|term: Seq<char>| terms.contains(term) <==> exists|i: int|
            0 <= i < entries.len() && (#[trigger] entries[i]).0 == term by {
            if terms.contains(term) {
                if term == last.0 {
                    assert(entries[entries.len() - 1].0 == term);
                } else {
                    let i = choose|i: int| 0 <= i < front.len() && (#[trigger] front[i]).0 == term;
                    assert(entries[i].0 == term);
                }
            }
            if exists|i: int| 0 <= i < entries.len() && (#[trigger] entries[i]).0 == term {
                let i = choose|i: int| 0 <= i < entries.len() && (#[trigger] entries[i]).0 == term;
                if i < front.len() {
                    assert(front[i].0 == term);
                }
            }
        }
    }
}

/// The term frequencies of one document: which terms occur in it, and how
/// often each.
#[derive(Debug)]
pub struct TermFreq {
    entries: Vec<TermCount>,
}

impl View for TermFreq {
    type V = Multiset<Seq<char>>;

    closed spec fn view(&self) -> Multiset<Seq<char>> {
        bag_of(counts(self.entries@))
    }
}

impl TermFreq {
    #[verifier::type_invariant]
    spec fn well_formed(self) -> bool {
        valid_entries(counts(self.entries@))
    }

    /// The terms with their counts, in the order in which the terms were
    /// first counted, or in which `from_entries` was given them.
    pub closed spec fn listing(&self) -> Seq<Count> {
        counts(self.entries@)
    }

    /// The frequencies of a document without tokens.
    pub fn new() -> (frequencies: Self)
        ensures
            frequencies@ == Multiset::<Seq<char>>::empty(),
            frequencies.listing() == Seq::<Count>::empty(),
    {
        proof {
            broadcast use vstd::multiset::group_multiset_axioms;

        }
        let frequencies = TermFreq { entries: Vec::new() };
        assert(frequencies.listing() =~= Seq::<Count>::empty());
        frequencies
    }

    /// The frequencies that `entries` list, where they are valid: no count
    /// is 0, no term stands twice, and the counts add up to a `usize`.
    pub fn from_entries(entries: Vec<TermCount>) -> (loaded: Result<Self, EntriesError>)
        ensures
            match loaded {
                Ok(frequencies) => {
                    &&& valid_entries(counts(entries@))
                    &&& frequencies.listing() == counts(entries@)
                    &&& frequencies@ == bag_of(counts(entries@))
                },
                Err(EntriesError::ZeroCount) => !positive_counts(counts(entries@)),
                Err(EntriesError::DuplicateTerm) => positive_counts(counts(entries@))
                    && !distinct_terms(counts(entries@)),
                Err(EntriesError::TooManyOccurrences) => positive_counts(counts(entries@))
                    && distinct_terms(counts(entries@)) && bag_of(counts(entries@)).len()
                    > usize::MAX,
            },
    {
        let ghost listed = counts(entries@);
        let mut i: usize = 0;
        while i < entries.len()
            invariant
                i <= entries@.len(),
                listed == counts(entries@),
                forall|k: int| 0 <= k < i ==> (#[trigger] listed[k]).1 >= 1,
            decreases entries@.len() - i,
        {
            if entries[i].count == 0 {
                assert(listed[i as int].1 == 0);
                return Err(EntriesError::ZeroCount);
            }
            i += 1;
        }
        let mut j: usize = 0;
        while j < entries.len()
            invariant
                j <= entries@.len(),
                listed == counts(entries@),
                positive_counts(listed),
                forall|a: int, b: int|
                    0 <= a < b < j ==> (#[trigger] listed[a]).0 != (#[trigger] listed[b]).0,
            decreases entries@.len() - j,
        {
            let mut k: usize = 0;
            while k < j
                invariant
                    k <= j < entries@.len(),
                    listed == counts(entries@),
                    positive_counts(listed),
                    forall|a: int| 0 <= a < k ==> (#[trigger] listed[a]).0 != listed[j as int].0,
                decreases j - k,
            {
                if same_text(entries[k].term.as_str(), entries[j].term.as_str()) {
                    assert(listed[k as int].0 == listed[j as int].0);
                    return Err(EntriesError::DuplicateTerm);
                }
                k += 1;
            }
            j += 1;
        }
        let mut tokens: usize = 0;
        let mut n: usize = 0;
        while n < entries.len()
            invariant
                n <= entries@.len(),
                listed == counts(entries@),
                positive_counts(listed),
                distinct_terms(listed),
                tokens == bag_of(listed.take(n as int)).len(),
            decreases entries@.len() - n,
        {
            proof {
                broadcast use vstd::multiset::group_multiset_axioms;

                lemma_bag_step(listed, n as int);
                lemma_bag_prefix(listed, n + 1);
            }
            match tokens.checked_add(entries[n].count) {
                Some(sum) => {
                    tokens = sum;
                },
                None => {
                    return Err(EntriesError::TooManyOccurrences);
                },
            }
            n += 1;
        }
        proof {
            broadcast use vstd::multiset::group_multiset_axioms;

            assert(listed.take(n as int) =~= listed);
        }
        Ok(TermFreq { entries })
    }

    /// One entry for each term of the document, with its count, in the order
    /// of the listing.
    pub fn entries(&self) -> (entries: Vec<TermCount>)
        ensures
            counts(entries@) == self.listing(),
            valid_entries(counts(entries@)),
            bag_of(counts(entries@)) == self@,
    {
        proof {
            use_type_invariant(self);
        }
        let mut entries: Vec<TermCount> = Vec::new();
        let mut i: usize = 0;
        while i < self.entries.len()
            invariant
                i <= self.entries@.len(),
                entries@.len() == i,
                forall|k: int| 0 <= k < i ==> (#[trigger] entries@[k])@ == self.entries@[k]@,
            decreases self.entries@.len() - i,
        {
            entries.push(
                TermCount { term: self.entries[i].term.clone(), count: self.entries[i].count },
            );
            i += 1;
        }
        proof {
            assert(counts(entries@) =~= counts(self.entries@));
        }
        entries
    }

    /// Index of the entry of `term`, if it has one.
    fn position(entries: &Vec<TermCount>, term: &str) -> (found: Option<usize>)
        ensures
            match found {
                Some(at) => at < entries@.len() && counts(entries@)[at as int].0 == term@,
                None => forall|i: int|
                    0 <= i < entries@.len() ==> (#[trigger] counts(entries@)[i]).0 != term@,
            },
    {
        let mut i: usize = 0;
        while i < entries.len()
            invariant
                i <= entries@.len(),
                forall|k: int| 0 <= k < i ==> (#[trigger] counts(entries@)[k]).0 != term@,
            decreases entries@.len() - i,
        {
            if same_text(entries[i].term.as_str(), term) {
                return Some(i);
            }
            i += 1;
        }
        None
    }

    /// Counts one more occurrence of `token`.
    fn record(&mut self, token: String)
        requires
            old(self)@.len() < usize::MAX,
        ensures
            final(self)@ == old(self)@.insert(token@),
            terms_of(final(self).listing()) == if old(self)@.contains(token@) {
                terms_of(old(self).listing())
            } else {
                terms_of(old(self).listing()).push(token@)
            },
    {
        proof {
            use_type_invariant(&*self);
            broadcast use vstd::multiset::group_multiset_axioms;

        }
        let mut entries: Vec<TermCount> = Vec::new();
        core::mem::swap(&mut entries, &mut self.entries);
        let ghost before = counts(entries@);
        match Self::position(&entries, token.as_str()) {
            Some(at) => {
                proof {
                    lemma_bag_count(before, token@);
                    assert(before[at as int].0 == token@);
                    assert(bag_of(before).count(token@) <= bag_of(before).len());
                }
                let entry = TermCount { term: token, count: entries[at].count + 1 };
                entries.set(at, entry);
                proof {
                    let after = counts(entries@);
                    assert(after =~= before.update(at as int, entry@));
                    lemma_bag_increment(before, at as int, entry@);
                    assert(before[at as int].1 >= 1);
                    assert(terms_of(after) =~= terms_of(before));
                    assert forall|i: int, j: int| 0 <= i < j < after.len() implies (
                    #[trigger] after[i]).0 != (#[trigger] after[j]).0 by {
                        assert(before[i].0 == after[i].0);
                        assert(before[j].0 == after[j].0);
                    }
                    assert forall|i: int| 0 <= i < after.len() implies (#[trigger] after[i]).1
                        >= 1 by {
                        assert(before[i].1 >= 1);
                    }
                }
            },
            None => {
                let entry = TermCount { term: token, count: 1 };
                entries.push(entry);
                proof {
                    let after = counts(entries@);
                    assert(after =~= before.push(entry@));
                    lemma_bag_push(before, entry@);
                    lemma_bag_count(before, entry@.0);
                    assert(terms_of(after) =~= terms_of(before).push(entry@.0));
                    reveal_with_fuel(repeated, 2);
                    assert(repeated(entry@.0, 1) =~= Multiset::singleton(entry@.0));
                    assert forall|i: int, j: int| 0 <= i < j < after.len() implies (
                    #[trigger] after[i]).0 != (#[trigger] after[j]).0 by {
                        assert(before[i] == after[i]);
                        if j < before.len() {
                            assert(before[j] == after[j]);
                        }
                    }
                    assert forall|i: int| 0 <= i < after.len() implies (#[trigger] after[i]).1
                        >= 1 by {
                        if i < before.len() {
                            assert(before[i] == after[i]);
                        }
                    }
                }
            },
        }
        self.entries = entries;
    }

    /// How often `term` occurs in the document.
    pub fn count(&self, term: &str) -> (occurrences: usize)
        ensures
            occurrences == self@.count(term@),
    {
        proof {
            use_type_invariant(self);
            lemma_bag_count(counts(self.entries@), term@);
        }
        match Self::position(&self.entries, term) {
            Some(at) => {
                assert(counts(self.entries@)[at as int].1 == self.entries@[at as int].count);
                self.entries[at].count
            },
            None => 0,
        }
    }

    /// Whether `term` occurs in the document.
    pub fn contains(&self, term: &str) -> (found: bool)
        ensures
            found == self@.contains(term@),
    {
        self.count(term) > 0
    }

    /// The number of tokens of the document, each occurrence counted: the sum
    /// of the counts of all terms.
    pub fn total(&self) -> (tokens: usize)
        ensures
            tokens == self@.len(),
    {
        proof {
            use_type_invariant(self);
            broadcast use vstd::multiset::group_multiset_axioms;

        }
        let ghost listed = counts(self.entries@);
        let mut tokens: usize = 0;
        let mut i: usize = 0;
        while i < self.entries.len()
            invariant
                i <= self.entries@.len(),
                listed == counts(self.entries@),
                tokens == bag_of(listed.take(i as int)).len(),
                bag_of(listed).len() <= usize::MAX,
            decreases self.entries@.len() - i,
        {
            proof {
                lemma_bag_step(listed, i as int);
                lemma_bag_prefix(listed, i + 1);
            }
            tokens = tokens + self.entries[i].count;
            i += 1;
        }
        assert(listed.take(i as int) =~= listed);
        tokens
    }

    /// The number of distinct terms of the document.
    pub fn len(&self) -> (terms: usize)
        ensures
            terms == self@.dom().len(),
    {
        proof {
            use_type_invariant(self);
            lemma_bag_terms(counts(self.entries@));
        }
        self.entries.len()
    }

    /// Whether the document has no token at all.
    pub fn is_empty(&self) -> (empty: bool)
        ensures
            empty == (self@.len() == 0),
    {
        proof {
            use_type_invariant(self);
            broadcast use vstd::multiset::group_multiset_axioms;

            let listed = counts(self.entries@);
            if listed.len() > 0 {
                lemma_bag_step(listed, 0);
                lemma_bag_prefix(listed, 1);
                assert(listed[0].1 >= 1);
            }
        }
        self.entries.len() == 0
    }
}

/// The term frequencies of a sequence of tokens: every token counted once
/// for each time it stands in the sequence.
pub fn build_tf(tokens: &Vec<String>) -> (frequencies: TermFreq)
    ensures
        frequencies@ == texts(tokens@).to_multiset(),
        frequencies@.len() == tokens@.len(),
        frequencies.listing() == count_list(texts(tokens@)),
{
    let mut frequencies = TermFreq::new();
    let mut i: usize = 0;
    proof {
        assert(texts(tokens@).take(0) =~= Seq::<Seq<char>>::empty());
        assert(Seq::<Seq<char>>::empty().to_multiset() =~= Multiset::<Seq<char>>::empty()) by {
            to_multiset_len(Seq::<Seq<char>>::empty());
            broadcast use vstd::multiset::group_multiset_axioms;

        }
    }
    proof {
        assert(terms_of(frequencies.listing()) =~= distinct(texts(tokens@).take(0)));
    }
    while i < tokens.len()
        invariant
            i <= tokens@.len(),
            frequencies@ == texts(tokens@).take(i as int).to_multiset(),
            terms_of(frequencies.listing()) == distinct(texts(tokens@).take(i as int)),
        decreases tokens@.len() - i,
    {
        proof {
            let seen = texts(tokens@).take(i as int);
            let token = tokens@[i as int]@;
            to_multiset_len(seen);
            to_multiset_build(seen, token);
            to_multiset_contains(seen, token);
            lemma_distinct(seen);
            assert(texts(tokens@).take(i + 1) =~= seen.push(token));
            assert(seen.push(token).drop_last() =~= seen);
        }
        frequencies.record(tokens[i].clone());
        i += 1;
    }
    proof {
        assert(texts(tokens@).take(i as int) =~= texts(tokens@));
        to_multiset_len(texts(tokens@));
        use_type_invariant(&frequencies);
        let listing = frequencies.listing();
        let expected = count_list(texts(tokens@));
        assert(listing.len() == expected.len()) by {
            assert(terms_of(listing).len() == listing.len());
        }
        assert forall|k: int| 0 <= k < listing.len() implies listing[k] == expected[k] by {
            assert(terms_of(listing)[k] == listing[k].0);
            lemma_bag_count(listing, listing[k].0);
        }
        assert(listing =~= expected);
    }
    frequencies
}

/// The term frequencies of a document with the text `doc_content`.
pub fn index_document(doc_content: &str) -> (frequencies: TermFreq)
    ensures
        frequencies@ == tokens_of(doc_content@).to_multiset(),
        frequencies@.len() == tokens_of(doc_content@).len(),
        frequencies.listing() == count_list(tokens_of(doc_content@)),
{
    let tokens = tokenize(doc_content);
    build_tf(&tokens)
}

/// The counts of a document add up to the number of its tokens.
pub proof fn lemma_counts_add_up(tokens: Seq<Seq<char>>)
    ensures
        tokens.to_multiset().len() == tokens.len(),
{
    to_multiset_len(tokens);
}

} // verus!
