use any_lsp::json::Json;
use any_lsp::navigation::{declaration_keyword, declares_name, definition_score, is_definition, rank_definitions};
use any_lsp::position::{
    path_from_uri, percent_decode, percent_encode_path, symbol_at, symbol_at_position, uri_from_path, utf16_length,
    utf16_to_byte_index, utf16_to_char_index,
};
use any_lsp::search::{
    find_matches, line_hits, merge_by_key, override_globs, occurrence_from_hit, text_matches, Occurrence,
    ServerConfig,
};
use any_lsp::server::{absolute_offset, apply_change};
use any_lsp::transport::{
    ends_session, expects_response, frame, header_entry, is_blank_line, message_length,
    parse_usize, request_method,
};

fn object(entries: Vec<(&str, Json)>) -> Json {
    Json::Object(
        entries
            .into_iter()
            .map(|(key, value)| (key.to_string(), value))
            .collect(),
    )
}

fn position(line: u64, character: u64) -> Json {
    object(vec![
        ("line", Json::Number(Some(line))),
        ("character", Json::Number(Some(character))),
    ])
}

fn chars(value: &str) -> Vec<char> {
    value.chars().collect()
}

fn occurrence(uri: &str, line: usize, start: usize, end: usize, line_text: &str) -> Occurrence {
    Occurrence {
        uri: uri.to_string(),
        path: path_from_uri(uri),
        line,
        start,
        end,
        line_text: line_text.to_string(),
    }
}

#[test]
fn unicode_and_qualified_positions_work() {
    assert_eq!(
        symbol_at_position("🙂 message", &position(0, 3)),
        Some("message".to_string())
    );
    assert_eq!(
        symbol_at_position("object.message", &position(0, 9)),
        Some("message".to_string())
    );
}

#[test]
fn punctuation_symbols_are_searchable() {
    assert_eq!(find_matches("C++ uses C++", "C++", true).len(), 2);
}

#[test]
fn incremental_changes_are_applied() {
    let change = object(vec![
        (
            "range",
            object(vec![("start", position(0, 6)), ("end", position(0, 11))]),
        ),
        ("text", Json::Str("Rust".to_string())),
    ]);
    assert_eq!(apply_change("hello world", &change), "hello Rust");
}

#[test]
fn change_across_lines_and_missing_fields() {
    let change = object(vec![
        (
            "range",
            object(vec![("start", position(0, 2)), ("end", position(1, 1))]),
        ),
        ("text", Json::Str("-".to_string())),
    ]);
    assert_eq!(apply_change("abc\ndef", &change), "ab-ef");
    // a change with no range fields replaces nothing at the start
    assert_eq!(apply_change("abc", &object(vec![])), "abc");
    // lines beyond the end clamp to the last line
    assert_eq!(absolute_offset(&chars("ab\ncd"), 9, 1), 4);
    assert_eq!(absolute_offset(&chars("🙂x"), 0, 2), 1);
}

#[test]
fn symbol_lookup_edges() {
    assert_eq!(symbol_at("foo_bar baz", 0, 4), Some("foo_bar".to_string()));
    assert_eq!(symbol_at("a C++ b", 0, 3), Some("C".to_string()));
    assert_eq!(symbol_at("x ++ y", 0, 2), Some("++".to_string()));
    assert_eq!(symbol_at("see `name`.", 0, 6), Some("name".to_string()));
    assert_eq!(symbol_at("   ", 0, 1), None);
    assert_eq!(symbol_at("one\ntwo", 1, 0), Some("two".to_string()));
    assert_eq!(symbol_at_position("abc", &Json::Null), Some("abc".to_string()));
}

#[test]
fn find_matches_respects_words_and_case() {
    assert_eq!(find_matches("message messages message", "message", true), vec![(0, 7), (17, 24)]);
    assert_eq!(find_matches("Message", "message", true), vec![]);
    assert_eq!(find_matches("Message", "message", false), vec![(0, 7)]);
    assert_eq!(find_matches("é message", "message", true), vec![(3, 10)]);
    assert_eq!(find_matches("anything", "", true), vec![]);
}

#[test]
fn utf16_columns_round_trip() {
    let line = "a🙂bé";
    assert_eq!(utf16_length(line), 5);
    assert_eq!(utf16_to_char_index(line, 3), 2);
    assert_eq!(utf16_to_byte_index(line, 3), 5);
    assert_eq!(utf16_to_byte_index(line, 99), line.len());
    for index in 0..=line.chars().count() {
        let prefix: String = line.chars().take(index).collect();
        assert_eq!(utf16_to_char_index(line, utf16_length(&prefix)), index);
    }
}

#[test]
fn uris_and_paths_round_trip() {
    let path = "/home/user/my file%/ü.txt";
    let uri = uri_from_path(path);
    assert_eq!(uri, "file:///home/user/my%20file%25/%C3%BC.txt");
    assert_eq!(path_from_uri(&uri), path);
    assert_eq!(path_from_uri("file://localhost/a%2Fb"), "/a/b");
    assert_eq!(path_from_uri("file://host/x"), "host/x");
    assert_eq!(path_from_uri("/plain/path"), "/plain/path");
    assert_eq!(percent_decode("%zz%41"), "%zzA");
}

#[test]
fn text_search_reports_utf16_columns() {
    let found = text_matches("file:///a.txt", "/a.txt", "x 🙂 word\nword\r\n", "word", true);
    let places: Vec<(usize, usize, usize)> = found.iter().map(|o| (o.line, o.start, o.end)).collect();
    assert_eq!(places, vec![(0, 5, 9), (1, 0, 4)]);
    assert_eq!(found[0].line_text, "x 🙂 word");
    assert_eq!(found[1].line_text, "word\r");
}

#[test]
fn file_hits_become_occurrences() {
    let hit = occurrence_from_hit("file:///a.rs", "/a.rs", 3, "let 🙂 = value;\r\n", "value", 11, 16);
    let hit = hit.expect("a whole word");
    assert_eq!((hit.line, hit.start, hit.end), (2, 9, 14));
    assert_eq!(hit.line_text, "let 🙂 = value;");
    assert!(occurrence_from_hit("file:///a.rs", "/a.rs", 1, "values\n", "value", 0, 5).is_none());
}

#[test]
fn merged_results_are_sorted_unique_and_bounded() {
    let items = vec![
        occurrence("file:///b", 0, 0, 1, "b"),
        occurrence("file:///a", 2, 0, 1, "a"),
        occurrence("file:///a", 1, 4, 5, "first"),
        occurrence("file:///a", 1, 4, 5, "second"),
    ];
    let merged = merge_by_key(&items, 10);
    let keys: Vec<(String, usize, usize)> = merged
        .iter()
        .map(|o| (o.uri.clone(), o.line, o.start))
        .collect();
    assert_eq!(
        keys,
        vec![
            ("file:///a".to_string(), 1, 4),
            ("file:///a".to_string(), 2, 0),
            ("file:///b".to_string(), 0, 0)
        ]
    );
    assert_eq!(merged[0].line_text, "second");
    assert_eq!(merge_by_key(&items, 2).len(), 2);
    assert_eq!(ServerConfig::default().max_results, 1000);
}

#[test]
fn definition_scores() {
    let code = occurrence("file:///c.py", 0, 4, 11, "def message():");
    assert_eq!(definition_score(&code, "message"), 4);
    let heading = occurrence("file:///n.md", 0, 2, 9, "# Message");
    assert_eq!(definition_score(&heading, "message"), 2);
    let prose = occurrence("file:///n.md", 0, 0, 4, "- Term: meaning");
    assert_eq!(definition_score(&prose, "Term"), 3);
    let usage = occurrence("file:///c.py", 0, 6, 13, "print(message)");
    assert!(!is_definition(&usage, "message"));
    let signature = occurrence("file:///api.rs", 1, 21, 27, "pub fn build(widget: Widget) {}");
    assert_eq!(definition_score(&signature, "Widget"), 0);
    assert_eq!(definition_score(&signature, "build"), 4);
    assert!(declares_name(&chars("export class Widget<T> {"), &chars("widget")));
    assert!(!declares_name(&chars("class Widgets {"), &chars("Widget")));
    assert!(declaration_keyword(&chars("  pub async fn go()")));
    assert!(!declaration_keyword(&chars("define x")));
}

#[test]
fn ranking_prefers_local_and_strong_definitions() {
    let items = vec![
        occurrence("file:///b.py", 0, 4, 11, "def message():"),
        occurrence("file:///a.md", 0, 2, 9, "# message"),
        occurrence("file:///a.md", 3, 0, 7, "message = 1"),
        occurrence("file:///a.md", 5, 6, 13, "print(message)"),
    ];
    let local = rank_definitions(&items, "message", Some("/a.md"));
    let lines: Vec<(String, usize)> = local.iter().map(|o| (o.uri.clone(), o.line)).collect();
    assert_eq!(lines, vec![("file:///a.md".to_string(), 3)]);
    let anywhere = rank_definitions(&items, "message", None);
    assert_eq!(anywhere[0].uri, "file:///b.py");
    let usages = vec![occurrence("file:///a.md", 5, 6, 13, "print(message)")];
    let none = rank_definitions(&usages, "message", None);
    assert_eq!(none.len(), 1);
    assert_eq!(none[0].line, 5);
}

#[test]
fn framed_message_reads_back() {
    let body = b"{\"id\":1}";
    let framed = frame(body);
    let header = b"Content-Length: 8\r\n\r\n";
    assert_eq!(&framed[..header.len()], header);
    assert_eq!(&framed[header.len()..], body);
    let first_line = b"Content-Length: 8\r\n".to_vec();
    assert!(!is_blank_line(&first_line));
    assert!(is_blank_line(b"\r\n"));
    assert!(is_blank_line(b"\n"));
    assert_eq!(message_length(&vec![first_line]), Some(8));
    let long = vec![0u8; 1234];
    let framed = frame(&long);
    assert!(framed.starts_with(b"Content-Length: 1234\r\n\r\n"));
    assert_eq!(framed.len(), 1234 + 24);
}

#[test]
fn header_lines_are_read_like_the_protocol() {
    let (name, value) = header_entry(b"CONTENT-length :  +42 \r\n").unwrap();
    assert_eq!(name.iter().collect::<String>(), "content-length ");
    assert_eq!(value.iter().collect::<String>(), "+42");
    assert!(header_entry(b"no separator\r\n").is_none());
    let lines = vec![
        b"Content-Type: x\r\n".to_vec(),
        b"content-length: 5\r\n".to_vec(),
        b"Content-Length: 7\r\n".to_vec(),
    ];
    assert_eq!(message_length(&lines), Some(7));
    assert_eq!(message_length(&vec![b"Content-Length: x\r\n".to_vec()]), None);
    assert_eq!(message_length(&vec![]), None);
}

#[test]
fn numbers_parse_as_usize_does() {
    assert_eq!(parse_usize(&chars("+12")), Some(12));
    assert_eq!(parse_usize(&chars("007")), Some(7));
    assert_eq!(parse_usize(&chars("")), None);
    assert_eq!(parse_usize(&chars("+")), None);
    assert_eq!(parse_usize(&chars("-1")), None);
    assert_eq!(parse_usize(&chars("1 2")), None);
    assert_eq!(parse_usize(&chars("99999999999999999999999")), None);
    assert_eq!(
        parse_usize(&chars(&usize::MAX.to_string())),
        Some(usize::MAX)
    );
}

#[test]
fn messages_are_classified() {
    let request = object(vec![
        ("id", Json::Number(Some(4))),
        ("method", Json::Str("textDocument/definition".to_string())),
    ]);
    assert_eq!(request_method(&request), "textDocument/definition");
    assert!(expects_response(&request));
    let notification = object(vec![("method", Json::Number(Some(1)))]);
    assert_eq!(request_method(&notification), "");
    assert!(!expects_response(&notification));
    assert!(ends_session("exit"));
    assert!(!ends_session("shutdown"));
}

#[test]
fn grep_hits_on_a_line_become_whole_word_occurrences() {
    let line = "message messages Message 🙂 message\r\n";
    let exact = line_hits("file:///a.txt", "/a.txt", 7, line, "message", true);
    let places: Vec<(usize, usize, usize)> = exact.iter().map(|o| (o.line, o.start, o.end)).collect();
    assert_eq!(places, vec![(6, 0, 7), (6, 28, 35)]);
    assert_eq!(exact[0].line_text, "message messages Message 🙂 message");
    let folded = line_hits("file:///a.txt", "/a.txt", 7, line, "message", false);
    let starts: Vec<usize> = folded.iter().map(|o| o.start).collect();
    assert_eq!(starts, vec![0, 17, 28]);
    assert!(line_hits("file:///a.txt", "/a.txt", 1, "C++ uses C++\n", "C++", true).len() == 2);
    assert!(line_hits("file:///a.txt", "/a.txt", 1, "nothing\n", "message", true).is_empty());
}

#[test]
fn percent_coding_round_trips_and_keeps_bad_escapes() {
    for value in ["a b", "100%", "ü/é?#x", "", "%zz"] {
        assert_eq!(percent_decode(&percent_encode_path(value)), value);
    }
    assert_eq!(percent_decode("a%20b%zz%4"), "a b%zz%4");
    assert_eq!(path_from_uri("file://localhost/a%20b"), "/a b");
    assert_eq!(path_from_uri("file:///a%20b"), "/a b");
}

#[test]
fn modifiers_and_indentation_keep_the_declaration_verdict() {
    for line in ["fn go()", "struct Widget;", "let x = 1", "pub", ""] {
        let base = declaration_keyword(&chars(line));
        for modifier in ["export", "PUB", "Readonly", "async"] {
            let prefixed = format!("{modifier} {line}");
            assert_eq!(declaration_keyword(&chars(&prefixed)), base);
        }
        let indented = format!("  \t{line}");
        assert_eq!(declaration_keyword(&chars(&indented)), base);
    }
}

#[test]
fn file_hits_do_not_overlap() {
    let hits = line_hits("file:///a.txt", "/a.txt", 1, "++++\n", "++", true);
    let columns: Vec<(usize, usize)> = hits.iter().map(|o| (o.start, o.end)).collect();
    assert_eq!(columns, vec![(0, 2), (2, 4)]);
    assert_eq!(find_matches("++++", "++", true), vec![(0, 2), (1, 3), (2, 4)]);
}

#[test]
fn search_globs_skip_git_then_keep_then_leave_out() {
    let mut config = ServerConfig::default();
    assert_eq!(override_globs(&config), vec!["!.git/**".to_string()]);
    config.include_patterns = vec!["**/*.rs".to_string(), "*.md".to_string()];
    config.exclude_patterns = vec!["target/**".to_string()];
    assert_eq!(
        override_globs(&config),
        vec![
            "!.git/**".to_string(),
            "**/*.rs".to_string(),
            "*.md".to_string(),
            "!target/**".to_string()
        ]
    );
}
