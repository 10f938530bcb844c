//! Splitting text into tokens.
//!
//! A token is a maximal run of numeric characters, or a maximal run of
//! alphanumeric characters that starts with a letter (folded to ASCII upper
//! case), or one single character of any other kind. Whitespace separates
//! tokens and is never part of the output of [`Lexer::next`] as a token of
//! its own.
//!
//! The model is [`raw_tokens_of`]: the spans of the text that become tokens,
//! before folding. [`tokens_of`] is what the lexer hands out.

use vstd::prelude::*;
use vstd::slice::slice_subrange;
use crate::text::{
    ascii_uppercase, is_alphabetic_char, is_alphanumeric_char, is_numeric_char,
    is_whitespace_char,
};

verus! {

/// The classes of characters that the lexer scans runs of.
pub enum CharClass {
    Whitespace,
    Numeric,
    Alphanumeric,
}

impl CharClass {
    /// Whether `c` belongs to the class.
    pub open spec fn holds(self, c: char) -> bool {
        match self {
            CharClass::Whitespace => is_whitespace_char(c),
            CharClass::Numeric => is_numeric_char(c),
            CharClass::Alphanumeric => is_alphanumeric_char(c),
        }
    }
}

/// Length of the longest prefix of `text` whose characters all belong to
/// `class`.
pub open spec fn run_length(text: Seq<char>, class: CharClass) -> nat
    decreases text.len(),
{
    if text.len() > 0 && class.holds(text[0]) {
        1 + run_length(text.skip(1), class)
    } else {
        0
    }
}

/// Whether `n` is the length of the longest prefix of `text` inside `class`:
/// the first `n` characters belong to it and the next one, if any, does not.
pub open spec fn is_maximal_run(text: Seq<char>, class: CharClass, n: int) -> bool {
    &&& 0 <= n <= text.len()
    &&& forall|i: int| 0 <= i < n ==> class.holds(#[trigger] text[i])
    &&& n < text.len() ==> !class.holds(text[n])
}

/// `run_length` is a maximal run.
pub proof fn lemma_run_length_is_maximal(text: Seq<char>, class: CharClass)
    ensures
        is_maximal_run(text, class, run_length(text, class) as int),
    decreases text.len(),
{
    if text.len() > 0 && class.holds(text[0]) {
        let rest = text.skip(1);
        lemma_run_length_is_maximal(rest, class);
        let n = run_length(text, class) as int;
        assert forall|i: int| 0 <= i < n implies class.holds(#[trigger] text[i]) by {
            if i > 0 {
                assert(text[i] == rest[i - 1]);
            }
        }
        if n < text.len() {
            assert(text[n] == rest[n - 1]);
        }
    }
}

/// There is only one maximal run, and `run_length` is its length.
pub proof fn lemma_maximal_run_is_run_length(text: Seq<char>, class: CharClass, n: int)
    requires
        is_maximal_run(text, class, n),
    ensures
        n == run_length(text, class),
{
    lemma_run_length_is_maximal(text, class);
    let m = run_length(text, class) as int;
    if n < m {
        assert(class.holds(text[n]));
    } else if m < n {
        assert(class.holds(text[m]));
    }
}

/// Length of the token that starts at the first character of `text`, which
/// is taken to be there and not to be whitespace.
pub open spec fn token_length(text: Seq<char>) -> nat
    recommends
        text.len() > 0,
{
    if is_numeric_char(text[0]) {
        run_length(text, CharClass::Numeric)
    } else if is_alphabetic_char(text[0]) {
        run_length(text, CharClass::Alphanumeric)
    } else {
        1
    }
}

/// Whether the token with raw text `raw` is a word: it starts with a letter
/// that is not also numeric.
pub open spec fn is_word(raw: Seq<char>) -> bool
    recommends
        raw.len() > 0,
{
    !is_numeric_char(raw[0]) && is_alphabetic_char(raw[0])
}

/// The text of a token as the lexer hands it out: words are folded to ASCII
/// upper case, numbers and single symbols stay as they are.
pub open spec fn normalize(raw: Seq<char>) -> Seq<char>
    recommends
        raw.len() > 0,
{
    if is_word(raw) {
        raw.map_values(|c: char| ascii_uppercase(c))
    } else {
        raw
    }
}

/// Index at which the first token of `text` starts; `text.len()` if there is
/// none.
pub open spec fn token_start(text: Seq<char>) -> nat {
    run_length(text, CharClass::Whitespace)
}

/// Index just behind the first token of `text`, where there is one.
pub open spec fn token_end(text: Seq<char>) -> nat
    recommends
        token_start(text) < text.len(),
{
    token_start(text) + token_length(text.skip(token_start(text) as int))
}

/// Where the first token of `text` lies: it starts on a character that is not
/// whitespace, behind whitespace only, and is not empty.
pub proof fn lemma_first_token_bounds(text: Seq<char>)
    ensures
        token_start(text) <= text.len(),
        forall|i: int| 0 <= i < token_start(text) ==> is_whitespace_char(#[trigger] text[i]),
        token_start(text) < text.len() ==> {
            &&& !is_whitespace_char(text[token_start(text) as int])
            &&& token_start(text) < token_end(text) <= text.len()
        },
{
    lemma_run_length_is_maximal(text, CharClass::Whitespace);
    let start = token_start(text) as int;
    if start < text.len() {
        let rest = text.skip(start);
        assert(rest[0] == text[start]);
        lemma_run_length_is_maximal(rest, CharClass::Numeric);
        lemma_run_length_is_maximal(rest, CharClass::Alphanumeric);
        if is_numeric_char(rest[0]) {
            if run_length(rest, CharClass::Numeric) == 0 {
                assert(!CharClass::Numeric.holds(rest[0]));
            }
        } else if is_alphabetic_char(rest[0]) {
            if run_length(rest, CharClass::Alphanumeric) == 0 {
                assert(!CharClass::Alphanumeric.holds(rest[0]));
            }
        }
    }
}

/// The spans of `text` that are its tokens, in order, each as it stands in
/// the text.
pub open spec fn raw_tokens_of(text: Seq<char>) -> Seq<Seq<char>>
    decreases text.len(),
    via raw_tokens_of_decreases
{
    if token_start(text) >= text.len() {
        Seq::empty()
    } else {
        seq![text.subrange(token_start(text) as int, token_end(text) as int)] + raw_tokens_of(
            text.skip(token_end(text) as int),
        )
    }
}

#[via_fn]
proof fn raw_tokens_of_decreases(text: Seq<char>) {
    lemma_first_token_bounds(text);
}

/// The tokens of `text`, in order, as the lexer hands them out.
pub open spec fn tokens_of(text: Seq<char>) -> Seq<Seq<char>> {
    raw_tokens_of(text).map_values(|raw: Seq<char>| normalize(raw))
}

/// How `tokens_of` unfolds: no token where only whitespace is left, else the
/// first token followed by the tokens of what stands behind it.
pub proof fn lemma_tokens_of_unfold(text: Seq<char>)
    ensures
        token_start(text) >= text.len() ==> tokens_of(text) == Seq::<Seq<char>>::empty(),
        token_start(text) < text.len() ==> tokens_of(text) == seq![
            normalize(text.subrange(token_start(text) as int, token_end(text) as int)),
        ] + tokens_of(text.skip(token_end(text) as int)),
{
    if token_start(text) >= text.len() {
        assert(tokens_of(text) =~= Seq::<Seq<char>>::empty());
    } else {
        let first = text.subrange(token_start(text) as int, token_end(text) as int);
        let rest = raw_tokens_of(text.skip(token_end(text) as int));
        assert(raw_tokens_of(text) == seq![first] + rest);
        assert(tokens_of(text) =~= seq![normalize(first)] + tokens_of(
            text.skip(token_end(text) as int),
        ));
    }
}

/// A lexer over a buffer of characters. Its view is the text that it has
/// not consumed yet.
#[derive(Debug)]
pub struct Lexer<'a> {
    content: &'a [char],
}

impl<'a> View for Lexer<'a> {
    type V = Seq<char>;

    closed spec fn view(&self) -> Seq<char> {
        self.content@
    }
}

impl<'a> Lexer<'a> {
    /// A lexer that has all of `content` before it.
    pub fn build(content: &'a [char]) -> (lexer: Self)
        ensures
            lexer@ == content@,
    {
        Self { content }
    }

    /// Drops the whitespace that the remaining text starts with.
    fn trim_left(&mut self)
        ensures
            final(self)@ == old(self)@.skip(token_start(old(self)@) as int),
            token_start(old(self)@) <= old(self)@.len(),
    {
        let ghost initial = self.content@;
        let ghost mut dropped: int = 0;
        while !self.content.is_empty() && self.content[0].is_whitespace()
            invariant
                0 <= dropped <= initial.len(),
                self.content@ == initial.skip(dropped),
                token_start(initial) == dropped + token_start(self.content@),
            decreases self.content@.len(),
        {
            proof {
                assert(self.content@.skip(1) == initial.skip(dropped + 1));
                dropped = dropped + 1;
            }
            self.content = slice_subrange(self.content, 1, self.content.len());
        }
    }

    /// Takes the longest prefix of the remaining text whose characters all
    /// satisfy `predicate`, and returns it.
    fn chop_while<P>(&mut self, predicate: P) -> (token: &'a [char]) where P: Fn(&char) -> bool
        requires
            forall|c: char| call_requires(predicate, (&c,)),
        ensures
            token@.len() <= old(self)@.len(),
            token@ == old(self)@.take(token@.len() as int),
            final(self)@ == old(self)@.skip(token@.len() as int),
            forall|i: int|
                0 <= i < token@.len() ==> call_ensures(predicate, (&#[trigger] token@[i],), true),
            final(self)@.len() > 0 ==> call_ensures(predicate, (&final(self)@[0],), false),
    {
        let mut n: usize = 0;
        loop
            invariant_except_break
                n <= self.content@.len(),
                forall|i: int|
                    0 <= i < n ==> call_ensures(predicate, (&#[trigger] self.content@[i],), true),
                forall|c: char| call_requires(predicate, (&c,)),
            ensures
                n <= self.content@.len(),
                forall|i: int|
                    0 <= i < n ==> call_ensures(predicate, (&#[trigger] self.content@[i],), true),
                n < self.content@.len() ==> call_ensures(
                    predicate,
                    (&self.content@[n as int],),
                    false,
                ),
            decreases self.content@.len() - n,
        {
            if n >= self.content.len() {
                break ;
            }
            let keep = predicate(&self.content[n]);
            if !keep {
                break ;
            }
            n += 1;
        }
        let token = slice_subrange(self.content, 0, n);
        self.content = slice_subrange(self.content, n, self.content.len());
        token
    }

    /// The next token of the remaining text, or `None` when only whitespace
    /// is left. The lexer moves behind the token it returns.
    pub fn next(&mut self) -> (token: Option<String>)
        ensures
            token_start(old(self)@) >= old(self)@.len() ==> token is None && final(self)@.len()
                == 0,
            token_start(old(self)@) < old(self)@.len() ==> {
                &&& token is Some
                &&& token->0@ == normalize(
                    old(self)@.subrange(
                        token_start(old(self)@) as int,
                        token_end(old(self)@) as int,
                    ),
                )
                &&& final(self)@ == old(self)@.skip(token_end(old(self)@) as int)
                &&& final(self)@.len() < old(self)@.len()
            },
            match token {
                Some(text) => {
                    &&& tokens_of(old(self)@).len() > 0
                    &&& text@ == tokens_of(old(self)@)[0]
                    &&& tokens_of(final(self)@) == tokens_of(old(self)@).skip(1)
                },
                None => tokens_of(old(self)@).len() == 0,
            },
    {
        let ghost initial = self@;
        self.trim_left();
        let ghost trimmed = self@;
        proof {
            lemma_first_token_bounds(initial);
            lemma_tokens_of_unfold(initial);
            if token_start(initial) < initial.len() {
                let first = normalize(
                    initial.subrange(token_start(initial) as int, token_end(initial) as int),
                );
                let rest = tokens_of(initial.skip(token_end(initial) as int));
                assert((seq![first] + rest).skip(1) =~= rest);
            }
        }
        if self.content.is_empty() {
            return None;
        }
        let first = self.content[0];
        if first.is_numeric() {
            let raw = self.chop_while(is_numeric);
            proof {
                lemma_chopped_run(initial, trimmed, raw@, self@, CharClass::Numeric);
            }
            Some(collect(raw))
        } else if first.is_alphabetic() {
            let raw = self.chop_while(is_alphanumeric);
            proof {
                lemma_chopped_run(initial, trimmed, raw@, self@, CharClass::Alphanumeric);
            }
            Some(collect_uppercase(raw))
        } else {
            let raw = slice_subrange(self.content, 0, 1);
            self.content = slice_subrange(self.content, 1, self.content.len());
            proof {
                let start = token_start(initial) as int;
                assert(raw@ =~= initial.subrange(start, start + 1));
                assert(self@ =~= initial.skip(start + 1));
            }
            Some(collect(raw))
        }
    }
}

/// The test of the numeric class, in the shape that `chop_while` takes.
fn is_numeric(c: &char) -> (b: bool)
    ensures
        b == is_numeric_char(*c),
{
    c.is_numeric()
}

/// The test of the alphanumeric class, in the shape that `chop_while` takes.
fn is_alphanumeric(c: &char) -> (b: bool)
    ensures
        b == is_alphanumeric_char(*c),
{
    c.is_alphanumeric()
}

/// What `chop_while` leaves when it is run with the test of `class` on text
/// that the leading whitespace has been taken from.
proof fn lemma_chopped_run(
    initial: Seq<char>,
    trimmed: Seq<char>,
    raw: Seq<char>,
    rest: Seq<char>,
    class: CharClass,
)
    requires
        token_start(initial) < initial.len(),
        trimmed == initial.skip(token_start(initial) as int),
        raw.len() <= trimmed.len(),
        raw == trimmed.take(raw.len() as int),
        rest == trimmed.skip(raw.len() as int),
        forall|i: int| 0 <= i < raw.len() ==> class.holds(#[trigger] raw[i]),
        rest.len() > 0 ==> !class.holds(rest[0]),
    ensures
        raw.len() == run_length(trimmed, class),
        raw == initial.subrange(
            token_start(initial) as int,
            (token_start(initial) + run_length(trimmed, class)) as int,
        ),
        rest == initial.skip((token_start(initial) + run_length(trimmed, class)) as int),
{
    let n = raw.len() as int;
    assert forall|i: int| 0 <= i < n implies class.holds(#[trigger] trimmed[i]) by {
        assert(trimmed[i] == raw[i]);
    }
    if n < trimmed.len() {
        assert(rest[0] == trimmed[n]);
    }
    lemma_maximal_run_is_run_length(trimmed, class, n);
    let start = token_start(initial) as int;
    assert(raw =~= initial.subrange(start, start + n));
    assert(rest =~= initial.skip(start + n));
}

/// The characters of `chars` as a string.
fn collect(chars: &[char]) -> (text: String)
    ensures
        text@ == chars@,
{
    let mut text = String::new();
    let mut i: usize = 0;
    while i < chars.len()
        invariant
            i <= chars@.len(),
            text@ == chars@.take(i as int),
        decreases chars@.len() - i,
    {
        text.push(chars[i]);
        i += 1;
        assert(chars@.take(i as int) =~= chars@.take(i - 1).push(chars@[i - 1]));
    }
    assert(chars@.take(i as int) =~= chars@);
    text
}

/// The characters of `chars`, each in its ASCII upper-case form, as a string.
fn collect_uppercase(chars: &[char]) -> (text: String)
    ensures
        text@ == chars@.map_values(|c: char| ascii_uppercase(c)),
{
    let mut text = String::new();
    let mut i: usize = 0;
    while i < chars.len()
        invariant
            i <= chars@.len(),
            text@ == chars@.take(i as int).map_values(|c: char| ascii_uppercase(c)),
        decreases chars@.len() - i,
    {
        text.push(chars[i].to_ascii_uppercase());
        i += 1;
        assert(chars@.take(i as int).map_values(|c: char| ascii_uppercase(c)) =~= chars@.take(
            i - 1,
        ).map_values(|c: char| ascii_uppercase(c)).push(ascii_uppercase(chars@[i - 1])));
    }
    assert(chars@.take(i as int) =~= chars@);
    text
}

/// The characters of `text`, in order.
pub fn chars_of(text: &str) -> (chars: Vec<char>)
    ensures
        chars@ == text@,
{
    let mut chars: Vec<char> = Vec::new();
    for c in it: text.chars()
        invariant
            it.seq() == text@,
            chars@ == it.seq().take(it.index()),
    {
        chars.push(c);
        assert(it.seq().take(it.index() + 1) =~= it.seq().take(it.index()).push(c));
    }
    assert(text@.take(text@.len() as int) =~= text@);
    chars
}

/// The text of each token of a list.
pub open spec fn texts(tokens: Seq<String>) -> Seq<Seq<char>> {
    tokens.map_values(|token: String| token@)
}

/// All tokens of `text`, in the order in which they stand in it.
pub fn tokenize(text: &str) -> (tokens: Vec<String>)
    ensures
        texts(tokens@) == tokens_of(text@),
{
    let chars = chars_of(text);
    let mut lexer = Lexer::build(chars.as_slice());
    let mut tokens: Vec<String> = Vec::new();
    proof {
        assert(texts(tokens@) =~= Seq::<Seq<char>>::empty());
    }
    loop
        invariant
            texts(tokens@) + tokens_of(lexer@) == tokens_of(text@),
        decreases lexer@.len(),
    {
        let ghost before = lexer@;
        let ghost found = tokens@;
        proof {
            lemma_tokens_of_unfold(before);
        }
        match lexer.next() {
            None => {
                return tokens;
            },
            Some(token) => {
                tokens.push(token);
                proof {
                    assert(texts(tokens@) =~= texts(found).push(token@));
                    assert(texts(tokens@) + tokens_of(lexer@) =~= texts(found) + tokens_of(
                        before,
                    ));
                }
            },
        }
    }
}

/// The characters of `text` that are not whitespace, in order.
pub open spec fn without_whitespace(text: Seq<char>) -> Seq<char> {
    text.filter(|c: char| !is_whitespace_char(c))
}

/// Whether no character of `text` is both whitespace and alphanumeric.
pub open spec fn classes_apart(text: Seq<char>) -> bool {
    forall|i: int|
        0 <= i < text.len() && is_whitespace_char(#[trigger] text[i]) ==> !is_alphanumeric_char(
            text[i],
        )
}

/// Whether `text` is whitespace throughout.
pub open spec fn is_blank(text: Seq<char>) -> bool {
    forall|i: int| 0 <= i < text.len() ==> is_whitespace_char(#[trigger] text[i])
}

/// A text has no token exactly when it is whitespace throughout.
pub proof fn lemma_no_tokens_iff_blank(text: Seq<char>)
    ensures
        tokens_of(text).len() == 0 <==> is_blank(text),
{
    lemma_first_token_bounds(text);
    if token_start(text) < text.len() {
        assert(!is_whitespace_char(text[token_start(text) as int]));
    }
}

/// Every token is a span of the text that is not empty and does not start
/// with whitespace, and folding keeps its length.
pub proof fn lemma_tokens_are_not_empty(text: Seq<char>)
    ensures
        tokens_of(text).len() == raw_tokens_of(text).len(),
        forall|i: int|
            0 <= i < raw_tokens_of(text).len() ==> {
                &&& (#[trigger] raw_tokens_of(text)[i]).len() > 0
                &&& !is_whitespace_char(raw_tokens_of(text)[i][0])
                &&& tokens_of(text)[i].len() == raw_tokens_of(text)[i].len()
            },
    decreases text.len(),
{
    lemma_first_token_bounds(text);
    if token_start(text) < text.len() {
        let rest = text.skip(token_end(text) as int);
        lemma_tokens_are_not_empty(rest);
        let first = text.subrange(token_start(text) as int, token_end(text) as int);
        assert(raw_tokens_of(text) == seq![first] + raw_tokens_of(rest));
        assert forall|i: int| 0 <= i < raw_tokens_of(text).len() implies {
            &&& (#[trigger] raw_tokens_of(text)[i]).len() > 0
            &&& !is_whitespace_char(raw_tokens_of(text)[i][0])
            &&& tokens_of(text)[i].len() == raw_tokens_of(text)[i].len()
        } by {
            if i > 0 {
                assert(raw_tokens_of(text)[i] == raw_tokens_of(rest)[i - 1]);
            }
        }
    }
}

/// Text without whitespace in it is unchanged by `without_whitespace`.
proof fn lemma_nothing_to_drop(text: Seq<char>)
    requires
        forall|i: int| 0 <= i < text.len() ==> !is_whitespace_char(#[trigger] text[i]),
    ensures
        without_whitespace(text) == text,
    decreases text.len(),
{
    reveal(Seq::filter);
    if text.len() > 0 {
        lemma_nothing_to_drop(text.drop_last());
        assert(text.drop_last().push(text.last()) =~= text);
    }
}

/// Text that is whitespace throughout has nothing left in
/// `without_whitespace`.
proof fn lemma_everything_dropped(text: Seq<char>)
    requires
        forall|i: int| 0 <= i < text.len() ==> is_whitespace_char(#[trigger] text[i]),
    ensures
        without_whitespace(text) == Seq::<char>::empty(),
    decreases text.len(),
{
    reveal(Seq::filter);
    if text.len() > 0 {
        lemma_everything_dropped(text.drop_last());
    }
}

/// `without_whitespace` of a text in two parts is that of the parts, joined.
proof fn lemma_without_whitespace_add(a: Seq<char>, b: Seq<char>)
    ensures
        without_whitespace(a + b) == without_whitespace(a) + without_whitespace(b),
{
    Seq::filter_distributes_over_add(a, b, |c: char| !is_whitespace_char(c));
}

/// The tokens hold all of the text but whitespace, in the order of the text.
///
/// Joined end to end, the spans that the tokens are made from have the same
/// characters outside whitespace as the text, in the same order. Where no
/// character of the text is whitespace and alphanumeric at once, no span has
/// whitespace in it, and the spans joined are the text without its
/// whitespace.
pub proof fn lemma_tokens_rebuild_text(text: Seq<char>)
    ensures
        without_whitespace(raw_tokens_of(text).flatten()) == without_whitespace(text),
        classes_apart(text) ==> raw_tokens_of(text).flatten() == without_whitespace(text),
    decreases text.len(),
{
    lemma_first_token_bounds(text);
    let start = token_start(text) as int;
    if start >= text.len() {
        lemma_everything_dropped(text);
        assert(raw_tokens_of(text).flatten() =~= Seq::<char>::empty());
        lemma_everything_dropped(Seq::<char>::empty());
    } else {
        let end = token_end(text) as int;
        let gap = text.take(start);
        let first = text.subrange(start, end);
        let rest = text.skip(end);
        lemma_tokens_rebuild_text(rest);
        assert(text =~= gap + first + rest);
        lemma_without_whitespace_add(gap + first, rest);
        lemma_without_whitespace_add(gap, first);
        lemma_everything_dropped(gap);
        assert(without_whitespace(text) == without_whitespace(first) + without_whitespace(rest));
        let tail = raw_tokens_of(rest);
        assert(raw_tokens_of(text) == seq![first] + tail);
        assert((seq![first] + tail).drop_first() =~= tail);
        assert(raw_tokens_of(text).flatten() == first + tail.flatten());
        lemma_without_whitespace_add(first, tail.flatten());
        if classes_apart(text) {
            assert(classes_apart(rest)) by {
                assert forall|i: int|
                    0 <= i < rest.len() && is_whitespace_char(
                        #[trigger] rest[i],
                    ) implies !is_alphanumeric_char(rest[i]) by {
                    assert(rest[i] == text[end + i]);
                }
            }
            lemma_token_has_no_whitespace(text);
            lemma_nothing_to_drop(first);
        }
    }
}

/// Where whitespace and alphanumeric characters are apart, the first token
/// of a text has no whitespace in it.
proof fn lemma_token_has_no_whitespace(text: Seq<char>)
    requires
        classes_apart(text),
        token_start(text) < text.len(),
    ensures
        forall|i: int|
            token_start(text) <= i < token_end(text) ==> !is_whitespace_char(#[trigger] text[i]),
{
    lemma_first_token_bounds(text);
    let start = token_start(text) as int;
    let trimmed = text.skip(start);
    lemma_run_length_is_maximal(trimmed, CharClass::Numeric);
    lemma_run_length_is_maximal(trimmed, CharClass::Alphanumeric);
    assert forall|i: int| start <= i < token_end(text) implies !is_whitespace_char(
        #[trigger] text[i],
    ) by {
        assert(text[i] == trimmed[i - start]);
        if i > start {
            if is_numeric_char(trimmed[0]) {
                assert(CharClass::Numeric.holds(trimmed[i - start]));
            } else if is_alphabetic_char(trimmed[0]) {
                assert(CharClass::Alphanumeric.holds(trimmed[i - start]));
            }
        }
    }
}

} // verus!
