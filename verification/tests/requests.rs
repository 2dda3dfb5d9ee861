use any_lsp::json::Json;
use any_lsp::position::{path_from_uri, uri_from_path};
use any_lsp::search::{line_hits, Occurrence};
use any_lsp::server::{LspServer, Outcome, Reply, Step};

const ROOT: &str = "/workspace/project";

fn text(value: &str) -> Json {
    Json::Str(value.to_string())
}

fn number(value: u64) -> Json {
    Json::Number(Some(value))
}

fn object(entries: Vec<(&str, Json)>) -> Json {
    Json::Object(
        entries
            .into_iter()
            .map(|(key, value)| (key.to_string(), value))
            .collect(),
    )
}

fn file_path(name: &str) -> String {
    format!("{ROOT}/{name}")
}

fn position_params(uri: &str, line: u64, character: u64) -> Json {
    object(vec![
        ("textDocument", object(vec![("uri", text(uri))])),
        (
            "position",
            object(vec![("line", number(line)), ("character", number(character))]),
        ),
    ])
}

fn open(server: &mut LspServer, uri: &str, body: &str) {
    let params = object(vec![(
        "textDocument",
        object(vec![("uri", text(uri)), ("text", text(body))]),
    )]);
    let step = server.handle("textDocument/didOpen", &params);
    assert!(matches!(step, Step::Reply(Reply::Null)));
}

/// The file search over an in-memory workspace of `(path, text)` files: each
/// line goes through the library's grep-backed `line_hits`.
fn search_files(files: &[(String, String)], symbol: &str, case_sensitive: bool) -> Vec<Occurrence> {
    let mut found = Vec::new();
    for (path, body) in files {
        let uri = uri_from_path(path);
        let mut line_number: u64 = 0;
        for line in body.split_inclusive('\n') {
            line_number += 1;
            found.extend(line_hits(&uri, path, line_number, line, symbol, case_sensitive));
        }
    }
    found
}

/// Runs the steps of a request against an in-memory workspace and returns the
/// JSON reply.
fn run(server: &mut LspServer, files: &[(String, String)], method: &str, params: &Json) -> Json {
    let mut step = server.handle(method, params);
    loop {
        step = match step {
            Step::Reply(reply) => return reply.to_json(),
            Step::SetRoot { path, reply } => {
                server.set_root(path);
                return reply.to_json();
            }
            Step::ReadFile { path, pending } => {
                let body = files
                    .iter()
                    .find(|(name, _)| *name == path)
                    .map(|(_, body)| body.clone());
                server.resume(pending, Outcome::FileText(body))
            }
            Step::Search {
                symbol,
                case_sensitive,
                paths,
                pending,
            } => {
                let disk = search_files(files, &symbol, case_sensitive);
                server.resume(pending, Outcome::Found { disk, paths })
            }
        };
    }
}

fn member<'a>(value: &'a Json, keys: &[&str]) -> &'a Json {
    let mut current = value;
    for key in keys {
        current = current.get(key).expect("member present");
    }
    current
}

fn item(value: &Json, index: usize) -> &Json {
    value.at(index).expect("array item present")
}

fn start_line(location: &Json) -> u64 {
    member(location, &["range", "start", "line"]).as_u64().unwrap()
}

fn start_lines(result: &Json) -> Vec<u64> {
    match result {
        Json::Array(items) => items.iter().map(start_line).collect(),
        _ => panic!("not an array"),
    }
}

fn workspace(files: &[(&str, &str)]) -> Vec<(String, String)> {
    files
        .iter()
        .map(|(name, body)| (file_path(name), body.to_string()))
        .collect()
}

#[test]
fn definition_prefers_code_declaration() {
    let body = "def greet():\n    return message\n\nmessage = 'hello'\nprint(message)\n";
    let files = workspace(&[("code.py", body)]);
    let uri = uri_from_path(&files[0].0);
    let mut server = LspServer::new(ROOT.to_string());
    open(&mut server, &uri, body);
    let result = run(
        &mut server,
        &files,
        "textDocument/definition",
        &position_params(&uri, 1, 12),
    );
    assert_eq!(start_line(item(&result, 0)), 3);
}

#[test]
fn definition_ignores_type_references_in_declaration_signatures() {
    let usage_text = "use crate::types::Widget;\npub fn build(widget: Widget) {}\n";
    let files = workspace(&[("types.rs", "pub struct Widget;\n"), ("api.rs", usage_text)]);
    let declaration_uri = uri_from_path(&files[0].0);
    let usage_uri = uri_from_path(&files[1].0);
    let mut server = LspServer::new(ROOT.to_string());
    open(&mut server, &usage_uri, usage_text);
    let character = usage_text.lines().nth(1).unwrap().find("Widget").unwrap() as u64 + 1;
    let result = run(
        &mut server,
        &files,
        "textDocument/definition",
        &position_params(&usage_uri, 1, character),
    );
    assert_eq!(
        member(item(&result, 0), &["uri"]).as_str(),
        Some(declaration_uri.as_str())
    );
    assert_eq!(start_line(item(&result, 0)), 0);
}

#[test]
fn prose_definition_is_navigable() {
    let body = "# Message\n\nMessage is text shown to a reader.\n\nThe message is friendly.\n";
    let files = workspace(&[("notes.md", body)]);
    let uri = uri_from_path(&files[0].0);
    let mut server = LspServer::new(ROOT.to_string());
    open(&mut server, &uri, body);
    let result = run(
        &mut server,
        &files,
        "textDocument/definition",
        &position_params(&uri, 4, 7),
    );
    assert_eq!(start_line(item(&result, 0)), 2);
}

#[test]
fn references_exclude_declarations_by_default() {
    let code = "message = 'hello'\nreturn message\nprint(message)\n";
    let files = workspace(&[("code.py", code), ("notes.md", "The message is friendly.\n")]);
    let uri = uri_from_path(&files[0].0);
    let mut server = LspServer::new(ROOT.to_string());
    open(&mut server, &uri, code);
    let result = run(
        &mut server,
        &files,
        "textDocument/references",
        &position_params(&uri, 1, 8),
    );
    let mut lines = start_lines(&result);
    lines.sort();
    lines.dedup();
    assert_eq!(lines, vec![0, 1, 2]);
}

#[test]
fn unsaved_buffer_replaces_disk_content() {
    let files = workspace(&[("code.py", "message = 'saved'\nold(message)\n")]);
    let uri = uri_from_path(&files[0].0);
    let mut server = LspServer::new(ROOT.to_string());
    open(&mut server, &uri, "message = 'changed'\nuse(message)\n");
    let params = object(vec![
        ("textDocument", object(vec![("uri", text(&uri))])),
        (
            "position",
            object(vec![("line", number(1)), ("character", number(5))]),
        ),
        (
            "context",
            object(vec![("includeDeclaration", Json::Bool(true))]),
        ),
    ]);
    let result = run(&mut server, &files, "textDocument/references", &params);
    assert_eq!(start_lines(&result), vec![0, 1]);
}

#[test]
fn definition_reads_a_closed_document_from_disk() {
    let body = "Term: meaning\nUse Term here\n";
    let files = workspace(&[("example.txt", body)]);
    let uri = uri_from_path(&files[0].0);
    assert_eq!(path_from_uri(&uri), files[0].0);
    let mut server = LspServer::new(ROOT.to_string());
    let step = server.handle("textDocument/definition", &position_params(&uri, 1, 5));
    assert!(matches!(step, Step::ReadFile { .. }));
    let result = run(
        &mut server,
        &files,
        "textDocument/definition",
        &position_params(&uri, 1, 5),
    );
    assert_eq!(start_lines(&result), vec![0]);
}

#[test]
fn missing_document_gives_no_locations() {
    let mut server = LspServer::new(ROOT.to_string());
    let uri = uri_from_path(&file_path("absent.txt"));
    let result = run(&mut server, &[], "textDocument/references", &position_params(&uri, 0, 0));
    assert_eq!(start_lines(&result), Vec::<u64>::new());
}

#[test]
fn references_include_declarations_when_asked() {
    let code = "message = 'hello'\nreturn message\n";
    let files = workspace(&[("code.py", code)]);
    let uri = uri_from_path(&files[0].0);
    let mut server = LspServer::new(ROOT.to_string());
    open(&mut server, &uri, code);
    let without = run(
        &mut server,
        &files,
        "textDocument/references",
        &position_params(&uri, 1, 8),
    );
    assert_eq!(start_lines(&without), vec![1]);
    let params = object(vec![
        ("textDocument", object(vec![("uri", text(&uri))])),
        (
            "position",
            object(vec![("line", number(1)), ("character", number(8))]),
        ),
        (
            "context",
            object(vec![("includeDeclaration", Json::Bool(true))]),
        ),
    ]);
    let with = run(&mut server, &files, "textDocument/references", &params);
    assert_eq!(start_lines(&with), vec![0, 1]);
}

#[test]
fn closed_document_is_searched_on_disk_again() {
    let files = workspace(&[("code.py", "message = 'saved'\nold(message)\n")]);
    let uri = uri_from_path(&files[0].0);
    let mut server = LspServer::new(ROOT.to_string());
    open(&mut server, &uri, "x = 1\n\n\nmessage\n");
    let close = object(vec![("textDocument", object(vec![("uri", text(&uri))]))]);
    assert!(matches!(
        server.handle("textDocument/didClose", &close),
        Step::Reply(Reply::Null)
    ));
    let params = object(vec![
        ("textDocument", object(vec![("uri", text(&uri))])),
        (
            "position",
            object(vec![("line", number(1)), ("character", number(5))]),
        ),
        (
            "context",
            object(vec![("includeDeclaration", Json::Bool(true))]),
        ),
    ]);
    let result = run(&mut server, &files, "textDocument/references", &params);
    assert_eq!(start_lines(&result), vec![0, 1]);
}

#[test]
fn full_change_replaces_the_document() {
    let files = workspace(&[("code.py", "nothing here\n")]);
    let uri = uri_from_path(&files[0].0);
    let mut server = LspServer::new(ROOT.to_string());
    open(&mut server, &uri, "nothing\n");
    let change = object(vec![
        ("textDocument", object(vec![("uri", text(&uri))])),
        (
            "contentChanges",
            Json::Array(vec![object(vec![("text", text("alpha\nbeta alpha\n"))])]),
        ),
    ]);
    assert!(matches!(
        server.handle("textDocument/didChange", &change),
        Step::Reply(Reply::Null)
    ));
    let params = object(vec![
        ("textDocument", object(vec![("uri", text(&uri))])),
        (
            "position",
            object(vec![("line", number(0)), ("character", number(1))]),
        ),
        (
            "context",
            object(vec![("includeDeclaration", Json::Bool(true))]),
        ),
    ]);
    let result = run(&mut server, &files, "textDocument/references", &params);
    assert_eq!(start_lines(&result), vec![0, 1]);
}

#[test]
fn initialize_sets_root_and_options() {
    let mut server = LspServer::new(ROOT.to_string());
    let params = object(vec![
        ("rootUri", text("file:///other/place")),
        (
            "initializationOptions",
            object(vec![
                ("maxResults", number(0)),
                ("caseSensitive", Json::Bool(false)),
                (
                    "include",
                    Json::Array(vec![text("**/*.rs"), number(3), text("*.md")]),
                ),
                ("exclude", Json::Array(vec![text("target/**")])),
            ]),
        ),
    ]);
    let step = server.handle("initialize", &params);
    let reply = match step {
        Step::SetRoot { path, reply } => {
            assert_eq!(path, "/other/place");
            server.set_root(path);
            reply
        }
        _ => panic!("expected the root to be set"),
    };
    let result = reply.to_json();
    assert_eq!(
        member(&result, &["serverInfo", "name"]).as_str(),
        Some("any-lsp")
    );
    assert_eq!(
        member(&result, &["capabilities", "textDocumentSync", "change"]).as_u64(),
        Some(1)
    );
    assert_eq!(
        member(&result, &["capabilities", "definitionProvider"]).as_bool(),
        Some(true)
    );
    assert_eq!(server.root(), "/other/place");
    let config = server.config();
    assert_eq!(config.max_results, 1);
    assert!(!config.case_sensitive);
    assert_eq!(
        config.include_patterns,
        vec!["**/*.rs".to_string(), "*.md".to_string()]
    );
    assert_eq!(config.exclude_patterns, vec!["target/**".to_string()]);
}

#[test]
fn max_results_limits_the_answer() {
    let body = "word\nword\nword\nword\n";
    let files = workspace(&[("a.txt", body)]);
    let uri = uri_from_path(&files[0].0);
    let mut server = LspServer::new(ROOT.to_string());
    let params = object(vec![(
        "initializationOptions",
        object(vec![("maxResults", number(2))]),
    )]);
    let step = server.handle("initialize", &params);
    assert!(matches!(step, Step::Reply(Reply::Initialized)));
    let params = object(vec![
        ("textDocument", object(vec![("uri", text(&uri))])),
        (
            "position",
            object(vec![("line", number(0)), ("character", number(0))]),
        ),
        (
            "context",
            object(vec![("includeDeclaration", Json::Bool(true))]),
        ),
    ]);
    let result = run(&mut server, &files, "textDocument/references", &params);
    assert_eq!(start_lines(&result), vec![0, 1]);
}

#[test]
fn unknown_method_and_lifecycle_reply_null() {
    let mut server = LspServer::new(ROOT.to_string());
    for method in ["initialized", "shutdown", "exit", "workspace/symbol"] {
        let step = server.handle(method, &Json::Null);
        assert!(matches!(step, Step::Reply(Reply::Null)));
        assert!(matches!(Reply::Null.to_json(), Json::Null));
    }
}

#[test]
fn initialize_reply_has_exactly_its_members() {
    let mut server = LspServer::new(ROOT.to_string());
    let reply = match server.handle("initialize", &Json::Null) {
        Step::Reply(reply) => reply,
        _ => panic!("expected a reply"),
    };
    let result = reply.to_json();
    let count = |value: &Json| match value {
        Json::Object(entries) => entries.len(),
        _ => 0,
    };
    assert_eq!(count(&result), 2);
    assert_eq!(count(member(&result, &["capabilities"])), 3);
    assert_eq!(count(member(&result, &["capabilities", "textDocumentSync"])), 2);
    assert_eq!(count(member(&result, &["serverInfo"])), 2);
    assert_eq!(
        member(&result, &["serverInfo", "version"]).as_str(),
        Some("0.1.0")
    );
}
