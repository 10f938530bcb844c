use sroogle::lexer::{chars_of, tokenize, Lexer};

fn tokens(text: &str) -> Vec<String> {
    tokenize(text)
}

#[test]
fn words_are_folded_to_upper_case() {
    assert_eq!(tokens("  hello urmom69420"), vec!["HELLO".to_string(), "URMOM69420".to_string()]);
}

#[test]
fn lexer_hands_out_one_token_at_a_time() {
    let chars: Vec<char> = "  hello urmom69420".chars().collect();
    let mut lexer = Lexer::build(&chars);
    assert_eq!(lexer.next(), Some("HELLO".to_string()));
    assert_eq!(lexer.next(), Some("URMOM69420".to_string()));
    assert_eq!(lexer.next(), None);
    assert_eq!(lexer.next(), None);
}

#[test]
fn empty_text_has_no_token() {
    assert_eq!(tokens(""), Vec::<String>::new());
}

#[test]
fn whitespace_has_no_token() {
    assert_eq!(tokens(" \t\r\n \u{a0}\u{2003}"), Vec::<String>::new());
}

#[test]
fn a_number_ends_where_a_letter_begins() {
    assert_eq!(tokens("123abc"), vec!["123".to_string(), "ABC".to_string()]);
}

#[test]
fn a_word_takes_the_digits_behind_it() {
    assert_eq!(tokens("abc123 x1y2"), vec!["ABC123".to_string(), "X1Y2".to_string()]);
}

#[test]
fn every_symbol_is_a_token_of_its_own() {
    assert_eq!(
        tokens("a,b!! (c)"),
        vec!["A", ",", "B", "!", "!", "(", "C", ")"].into_iter().map(String::from).collect::<Vec<_>>()
    );
}

#[test]
fn only_ascii_letters_are_folded() {
    assert_eq!(tokens("h\u{e9}llo \u{df}traum"), vec!["H\u{e9}LLO".to_string(), "\u{df}TRAUM".to_string()]);
}

#[test]
fn letters_of_other_scripts_make_words() {
    assert_eq!(
        tokens("\u{43f}\u{440}\u{438}\u{432}\u{435}\u{442} \u{4e16}\u{754c}1"),
        vec!["\u{43f}\u{440}\u{438}\u{432}\u{435}\u{442}".to_string(), "\u{4e16}\u{754c}1".to_string()]
    );
}

#[test]
fn digits_of_other_scripts_make_numbers() {
    // Arabic-Indic digits, then a Roman numeral, which counts as a number
    // and as a letter: the number wins.
    assert_eq!(tokens("\u{661}\u{662}x"), vec!["\u{661}\u{662}".to_string(), "X".to_string()]);
    assert_eq!(tokens("\u{2167}a"), vec!["\u{2167}".to_string(), "A".to_string()]);
}

#[test]
fn a_number_is_not_folded() {
    assert_eq!(tokens("42"), vec!["42".to_string()]);
}

#[test]
fn tokenizing_twice_gives_the_same_tokens() {
    let text = "The quick brown fox, 42 times!";
    assert_eq!(tokens(text), tokens(text));
}

#[test]
fn chars_of_gives_every_character() {
    assert_eq!(chars_of("a\u{e9}\u{4e16}"), vec!['a', '\u{e9}', '\u{4e16}']);
    assert_eq!(chars_of(""), Vec::<char>::new());
}

#[test]
fn tokens_hold_all_of_the_text_but_whitespace() {
    let text = "  The cat, 42 sat!\n on\tthe mat.  ";
    let joined: String = tokens(text).concat();
    let expected: String =
        text.chars().filter(|c| !c.is_whitespace()).map(|c| c.to_ascii_uppercase()).collect();
    assert_eq!(joined, expected);
    assert_eq!(joined, "THECAT,42SAT!ONTHEMAT.");
}

#[test]
fn no_token_is_empty_or_whitespace() {
    for token in tokens(" a  b,c 12 \u{3000} z ") {
        assert!(!token.is_empty());
        assert!(!token.chars().any(|c| c.is_whitespace()));
    }
}
