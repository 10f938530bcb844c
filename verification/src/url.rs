//! Reading the query out of the URL of a request.

use vstd::prelude::*;
use crate::lexer::chars_of;

verus! {

/// What `urlencoding::decode` makes of a text: the text with every `%` and
/// two hexadecimal digits behind it replaced by the byte they spell, where
/// the bytes that come out are UTF-8; `None` where they are not.
pub uninterp spec fn percent_decoded(text: Seq<char>) -> Option<Seq<char>>;

/// The error of `String::from_utf8`, which `urlencoding::decode` hands on.
#[verifier::external_type_specification]
#[verifier::external_body]
pub struct ExFromUtf8Error(std::string::FromUtf8Error);

/// Why no query could be read from a URL.
#[derive(Debug, PartialEq, Eq, Clone, Copy, Structural)]
pub enum UrlError {
    /// The URL, percent-decoded, is not UTF-8.
    NotUtf8,
}

/// `urlencoding::decode`: trusted to be a fixed function of the text, and
/// to fail exactly where that function has no value.
#[verifier::external_body]
fn percent_decode(text: &str) -> (decoded: Result<String, std::string::FromUtf8Error>)
    ensures
        match decoded {
            Ok(plain) => percent_decoded(text@) == Some(plain@),
            Err(_) => percent_decoded(text@) is None,
        },
{
    urlencoding::decode(text).map(|plain| plain.into_owned())
}

/// Whether `pattern` stands in `text` at the index `at`.
pub open spec fn occurs_at(text: Seq<char>, pattern: Seq<char>, at: int) -> bool {
    &&& 0 <= at
    &&& at + pattern.len() <= text.len()
    &&& text.subrange(at, at + pattern.len()) == pattern
}

/// The first index at or behind `from` at which `pattern` stands in `text`.
pub open spec fn first_occurrence(text: Seq<char>, pattern: Seq<char>, from: int) -> Option<int>
    decreases text.len() - from + 1,
{
    if from < 0 || from + pattern.len() > text.len() {
        None
    } else if occurs_at(text, pattern, from) {
        Some(from)
    } else {
        first_occurrence(text, pattern, from + 1)
    }
}

/// The first index at or behind `from` at which `text` has the character
/// `wanted`.
pub open spec fn first_char(text: Seq<char>, wanted: char, from: int) -> Option<int>
    decreases text.len() - from,
{
    if from < 0 || from >= text.len() {
        None
    } else if text[from] == wanted {
        Some(from)
    } else {
        first_char(text, wanted, from + 1)
    }
}

/// `text` with a space in the place of every `+`.
pub open spec fn spaces_for_plus(text: Seq<char>) -> Seq<char> {
    text.map_values(|c: char| if c == '+' { ' ' } else { c })
}

/// The value of the parameter `name` in `url`.
///
/// It starts behind the first `=` that stands behind the place where `name`
/// first begins, and ends before the first `&` that stands behind the first
/// character of the value, or at the end of the URL. Every `+` in it is read
/// as a space. There is no value where `name` does not occur, or no `=`
/// stands behind it.
pub open spec fn param_value(url: Seq<char>, name: Seq<char>) -> Option<Seq<char>> {
    match first_occurrence(url, name, 0) {
        None => None,
        Some(start) => match first_char(url, '=', start + 1) {
            None => None,
            Some(equals) => match first_char(url, '&', equals + 2) {
                None => Some(spaces_for_plus(url.subrange(equals + 1, url.len() as int))),
                Some(end) => Some(spaces_for_plus(url.subrange(equals + 1, end))),
            },
        },
    }
}

/// Whether `pattern` stands in `text` at the index `at`.
fn matches_at(text: &Vec<char>, pattern: &Vec<char>, at: usize) -> (found: bool)
    requires
        at + pattern@.len() <= text@.len(),
    ensures
        found == occurs_at(text@, pattern@, at as int),
{
    let mut k: usize = 0;
    assert(text.len() <= usize::MAX);
    while k < pattern.len()
        invariant
            k <= pattern@.len(),
            at + pattern@.len() <= text@.len() <= usize::MAX,
            forall|n: int| 0 <= n < k ==> text@[at + n] == pattern@[n],
        decreases pattern@.len() - k,
    {
        if text[at + k] != pattern[k] {
            assert(text@.subrange(at as int, at + pattern@.len())[k as int] != pattern@[k as int]);
            return false;
        }
        k += 1;
    }
    assert(text@.subrange(at as int, at + pattern@.len()) =~= pattern@);
    true
}

/// The first index at which `pattern` stands in `text`.
fn find(text: &Vec<char>, pattern: &Vec<char>) -> (found: Option<usize>)
    ensures
        match found {
            Some(at) => first_occurrence(text@, pattern@, 0) == Some(at as int) && at
                <= text@.len(),
            None => first_occurrence(text@, pattern@, 0) is None,
        },
{
    if pattern.len() > text.len() {
        return None;
    }
    let last = text.len() - pattern.len();
    let mut at: usize = 0;
    loop
        invariant
            at <= last,
            last + pattern@.len() == text@.len(),
            first_occurrence(text@, pattern@, 0) == first_occurrence(text@, pattern@, at as int),
        decreases last - at,
    {
        if matches_at(text, pattern, at) {
            return Some(at);
        }
        if at == last {
            assert(first_occurrence(text@, pattern@, at + 1) is None);
            return None;
        }
        at += 1;
    }
}

/// The first index at or behind `from` at which `text` has `wanted`.
fn find_char(text: &Vec<char>, wanted: char, from: usize) -> (found: Option<usize>)
    ensures
        match found {
            Some(at) => first_char(text@, wanted, from as int) == Some(at as int) && from <= at
                < text@.len(),
            None => first_char(text@, wanted, from as int) is None,
        },
{
    let mut at: usize = from;
    while at < text.len()
        invariant
            from <= at,
            first_char(text@, wanted, from as int) == first_char(text@, wanted, at as int),
        decreases text@.len() - at,
    {
        if text[at] == wanted {
            return Some(at);
        }
        at += 1;
    }
    None
}

/// The characters of `text` from `from` up to `to`, with a space in the
/// place of every `+`.
fn value_between(text: &Vec<char>, from: usize, to: usize) -> (value: String)
    requires
        from <= to <= text@.len(),
    ensures
        value@ == spaces_for_plus(text@.subrange(from as int, to as int)),
{
    let mut value = String::new();
    let mut i: usize = from;
    while i < to
        invariant
            from <= i <= to <= text@.len(),
            value@ == spaces_for_plus(text@.subrange(from as int, i as int)),
        decreases to - i,
    {
        let c = text[i];
        value.push(if c == '+' { ' ' } else { c });
        i += 1;
        assert(spaces_for_plus(text@.subrange(from as int, i as int)) =~= spaces_for_plus(
            text@.subrange(from as int, i - 1),
        ).push(if c == '+' { ' ' } else { c }));
    }
    value
}

/// The value of the parameter `param_name` in `url`, as in
/// `/?query=test+query`, where the value of `query` is `test query`.
pub fn get_param_value_from_url(url: &str, param_name: &str) -> (value: Option<String>)
    ensures
        match value {
            Some(text) => param_value(url@, param_name@) == Some(text@),
            None => param_value(url@, param_name@) is None,
        },
{
    let text = chars_of(url);
    let name = chars_of(param_name);
    let start = match find(&text, &name) {
        Some(start) => start,
        None => {
            return None;
        },
    };
    if start >= text.len() {
        return None;
    }
    let equals = match find_char(&text, '=', start + 1) {
        Some(equals) => equals,
        None => {
            return None;
        },
    };
    if equals + 1 >= text.len() {
        assert(first_char(text@, '&', equals + 2) is None);
        return Some(value_between(&text, equals + 1, text.len()));
    }
    match find_char(&text, '&', equals + 2) {
        Some(end) => Some(value_between(&text, equals + 1, end)),
        None => Some(value_between(&text, equals + 1, text.len())),
    }
}

/// The query of a request with the URL `url`: the value of the parameter
/// `query` in the URL, percent-decoded. A URL without that parameter has no
/// query; one that is not UTF-8 when decoded is an error.
pub fn query_of_url(url: &str) -> (query: Result<Option<String>, UrlError>)
    ensures
        match query {
            Ok(Some(text)) => percent_decoded(url@) matches Some(decoded) && param_value(
                decoded,
                "query"@,
            ) == Some(text@),
            Ok(None) => percent_decoded(url@) matches Some(decoded) && param_value(
                decoded,
                "query"@,
            ) is None,
            Err(UrlError::NotUtf8) => percent_decoded(url@) is None,
        },
{
    match percent_decode(url) {
        Ok(decoded) => Ok(get_param_value_from_url(decoded.as_str(), "query")),
        Err(_) => Err(UrlError::NotUtf8),
    }
}

} // verus!
