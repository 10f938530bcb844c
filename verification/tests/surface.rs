use sroogle::command::{Command, DEFAULT_ADDRESS};
use sroogle::config::Config;
use sroogle::extract::{read_text_from_xml, text_of_events};
use sroogle::render::{render_page, Hit, RateLine, PAGE_HEAD, PAGE_TAIL};
use sroogle::url::{get_param_value_from_url, query_of_url, UrlError};

fn args(list: &[&str]) -> Vec<String> {
    list.iter().map(|arg| arg.to_string()).collect()
}

#[test]
fn query_url_parsed() {
    assert_eq!(
        get_param_value_from_url("/?query=test+query", "query"),
        Some("test query".to_string())
    )
}

#[test]
fn the_value_ends_at_the_next_parameter() {
    assert_eq!(get_param_value_from_url("/?query=a+b&page=2", "query"), Some("a b".to_string()));
    assert_eq!(get_param_value_from_url("/?page=2&query=a", "query"), Some("a".to_string()));
    assert_eq!(get_param_value_from_url("/?page=2&query=a", "page"), Some("2".to_string()));
}

#[test]
fn a_url_without_the_parameter_has_no_value() {
    assert_eq!(get_param_value_from_url("/", "query"), None);
    assert_eq!(get_param_value_from_url("", "query"), None);
    assert_eq!(get_param_value_from_url("/?quer=1", "query"), None);
    assert_eq!(get_param_value_from_url("/query", "query"), None);
    assert_eq!(get_param_value_from_url("/?a=1&query", "query"), None);
}

#[test]
fn the_value_may_be_empty() {
    assert_eq!(get_param_value_from_url("/?query=", "query"), Some(String::new()));
}

#[test]
fn an_ampersand_right_behind_the_equals_sign_is_part_of_the_value() {
    assert_eq!(get_param_value_from_url("/?query=&x=1", "query"), Some("&x=1".to_string()));
    assert_eq!(get_param_value_from_url("/?query=&x=1&y", "query"), Some("&x=1".to_string()));
}

#[test]
fn the_name_is_found_wherever_it_first_stands() {
    assert_eq!(get_param_value_from_url("/?myquery=1&query=2", "query"), Some("1".to_string()));
    assert_eq!(get_param_value_from_url("/query/?x=7", "query"), Some("7".to_string()));
    assert_eq!(get_param_value_from_url("/?a=1", ""), Some("1".to_string()));
}

#[test]
fn characters_beyond_ascii_are_kept() {
    assert_eq!(
        get_param_value_from_url("/\u{e9}?query=h\u{e9}llo+w\u{f6}rld&\u{4e16}", "query"),
        Some("h\u{e9}llo w\u{f6}rld".to_string())
    );
    assert_eq!(
        get_param_value_from_url("/?\u{4e16}\u{754c}=+x+", "\u{4e16}\u{754c}"),
        Some(" x ".to_string())
    );
}

#[test]
fn the_query_of_a_request_is_percent_decoded() {
    assert_eq!(query_of_url("/?query=hello%20world"), Ok(Some("hello world".to_string())));
    assert_eq!(query_of_url("/?query=test+query"), Ok(Some("test query".to_string())));
    assert_eq!(query_of_url("/?query=a%2Bb%26c"), Ok(Some("a b".to_string())));
    assert_eq!(query_of_url("/?query=caf%C3%A9"), Ok(Some("caf\u{e9}".to_string())));
    assert_eq!(query_of_url("/?q%75ery=1"), Ok(Some("1".to_string())));
    assert_eq!(query_of_url("/"), Ok(None));
    assert_eq!(query_of_url("/favicon.ico"), Ok(None));
}

#[test]
fn a_url_that_is_not_utf8_when_decoded_is_refused() {
    assert_eq!(query_of_url("/?query=%FF"), Err(UrlError::NotUtf8));
    assert_eq!(query_of_url("/%C3?query=x"), Err(UrlError::NotUtf8));
}

#[test]
fn subcommands_take_their_arguments() {
    match Command::build(args(&["index", "docs"])) {
        Some(Command::IndexDirectory(folder)) => assert_eq!(folder, "docs"),
        other => panic!("{other:?}"),
    }
    match Command::build(args(&["search", "index.json", "more"])) {
        Some(Command::Search(path)) => assert_eq!(path, "index.json"),
        other => panic!("{other:?}"),
    }
    match Command::build(args(&["serve", "index.json"])) {
        Some(Command::Serve { index_path, address }) => {
            assert_eq!(index_path, "index.json");
            assert_eq!(address, "127.0.0.1:6969");
            assert_eq!(address, DEFAULT_ADDRESS);
        },
        other => panic!("{other:?}"),
    }
    match Command::build(args(&["serve", "index.json", "0.0.0.0:8080", "x"])) {
        Some(Command::Serve { index_path, address }) => {
            assert_eq!(index_path, "index.json");
            assert_eq!(address, "0.0.0.0:8080");
        },
        other => panic!("{other:?}"),
    }
}

#[test]
fn subcommands_are_read_in_any_case() {
    assert!(matches!(Command::build(args(&["INDEX", "docs"])), Some(Command::IndexDirectory(_))));
    assert!(matches!(Command::build(args(&["Serve", "i"])), Some(Command::Serve { .. })));
    assert!(matches!(Command::build(args(&["sEARCH", "i"])), Some(Command::Search(_))));
}

#[test]
fn other_command_lines_give_no_command() {
    assert!(Command::build(args(&[])).is_none());
    assert!(Command::build(args(&["index"])).is_none());
    assert!(Command::build(args(&["search"])).is_none());
    assert!(Command::build(args(&["serve"])).is_none());
    assert!(Command::build(args(&["remove", "docs"])).is_none());
    assert!(Command::build(args(&["", "docs"])).is_none());
    assert!(Command::build(args(&["index ", "docs"])).is_none());
}

#[test]
fn select_takes_the_subcommand_as_it_is() {
    assert!(matches!(
        Command::select("index", &args(&["whatever", "docs"])),
        Some(Command::IndexDirectory(_))
    ));
    assert!(Command::select("INDEX", &args(&["INDEX", "docs"])).is_none());
}

#[test]
fn the_description_names_every_subcommand() {
    let description = Command::get_subcommands_description();
    assert!(description.starts_with("\n    index <folder>"));
    assert!(description.contains("\n    search <index-file>"));
    assert!(description.contains("\n    serve <index-file> [address]"));
    assert!(description.ends_with("start local HTTP server with Web Interface"));
    assert_eq!(description.lines().count(), 4);
}

#[test]
fn a_configuration_is_read_from_the_arguments() {
    let config = Config::build(args(&["prog", "needle", "haystack"]), false).unwrap();
    assert_eq!(config.query, "needle");
    assert_eq!(config.directory, "haystack");
    assert!(!config.ignore_case);
    let config = Config::build(args(&["prog", "needle", "haystack"]), true).unwrap();
    assert!(config.ignore_case);
    for flag in ["-i", "--ignore-case"] {
        let config = Config::build(args(&["prog", flag, "needle", "haystack"]), false).unwrap();
        assert_eq!(config.query, "needle");
        assert_eq!(config.directory, "haystack");
        assert!(config.ignore_case);
    }
}

#[test]
fn a_configuration_needs_a_query_and_a_directory() {
    let message = |list: &[&str]| Config::build(args(list), false).unwrap_err();
    assert_eq!(message(&[]), "Didn't get a query string");
    assert_eq!(message(&["prog"]), "Didn't get a query string");
    assert_eq!(message(&["prog", "-i"]), "Didn't get a query string");
    assert_eq!(message(&["prog", "needle"]), "Didn't get a directory");
    assert_eq!(message(&["prog", "--ignore-case", "needle"]), "Didn't get a directory");
    assert_eq!(message(&["prog", "a", "b", "c", "d"]), "Unexpected argument: c");
    assert_eq!(message(&["prog", "-i", "a", "b", "c"]), "Unexpected argument: c");
    assert_eq!(message(&["prog", "a", "b", "-i"]), "Unexpected argument: -i");
}

#[test]
fn the_text_of_an_xml_document_is_its_character_data() {
    assert_eq!(
        read_text_from_xml(b"<doc><title>Hello</title><p>wide world</p></doc>"),
        "Hello wide world "
    );
    assert_eq!(read_text_from_xml(b"<doc a=\"attribute\"/>"), "");
    assert_eq!(read_text_from_xml(b"<p>fish &amp; chips</p>"), "fish & chips ");
}

#[test]
fn whitespace_between_tags_is_no_character_data() {
    assert_eq!(read_text_from_xml(b"<doc>\n  <p>one</p>\n  <p>two</p>\n</doc>"), "one two ");
}

#[test]
fn the_text_ends_at_the_first_error() {
    assert_eq!(read_text_from_xml(b"<doc><p>one</p><p>two</q><p>three</p></doc>"), "one two ");
    assert_eq!(read_text_from_xml(b"not xml at all"), "");
    assert_eq!(read_text_from_xml(b""), "");
}

#[test]
fn events_without_text_add_nothing() {
    let events = vec![None, Some("a".to_string()), None, Some(String::new()), Some("b c".to_string())];
    assert_eq!(text_of_events(&events), "a  b c ");
    assert_eq!(text_of_events(&Vec::new()), "");
}

#[test]
fn a_page_without_a_query_is_the_form() {
    let page = render_page(None);
    assert_eq!(page, format!("{PAGE_HEAD}{PAGE_TAIL}"));
    assert!(page.starts_with("\n          <html>\n            <header>\n              <title>Sroogle</title>"));
    assert!(page.contains("<input id=\"query\" type=\"text\" name=\"query\"/>"));
    assert!(page.ends_with("</form>\n        \n              </body>\n          </html>"));
    assert!(!page.contains("Results"));
}

#[test]
fn a_page_lists_the_results_with_their_rates() {
    let hits = vec![
        Hit {
            label: "\"docs/a.xml\"".to_string(),
            rates: vec![
                RateLine { term: "CAT".to_string(), rate: "0.1".to_string() },
                RateLine { term: "SAT".to_string(), rate: "0".to_string() },
            ],
        },
        Hit { label: "\"b\"".to_string(), rates: Vec::new() },
    ];
    let expected = format!(
        "{PAGE_HEAD}<h1>Results</h1><ul>\
         <li>\"docs/a.xml\":</li><ul><li>    CAT: 0.1</li><li>    SAT: 0</li></ul>\
         <li>\"b\":</li><ul></ul>\
         </ul>{PAGE_TAIL}"
    );
    assert_eq!(render_page(Some(&hits)), expected);
    assert_eq!(
        render_page(Some(&Vec::new())),
        format!("{PAGE_HEAD}<h1>Results</h1><ul></ul>{PAGE_TAIL}")
    );
}
