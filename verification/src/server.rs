//! The language server: open documents, settings, and the answers to requests.
use vstd::prelude::*;
use crate::json::Json;
use crate::navigation::{
    is_definition, rank_definitions, rank_spec, same_document, score_of,
};
use crate::position::{
    path_from_uri, path_of_uri, percent_decoded, position_number, split_lines, split_lines_of, symbol_at,
    symbol_at_spec, uri_path_bytes, utf16_char_index, utf16_to_char_index_of, views,
    lemma_utf16_char_index_bound,
};
use crate::search::{
    Document, Occurrence, OccurrenceView, ServerConfig, WorkspaceSearcher, document_view,
    document_views, is_merged_result, occurrence_views, search_candidates, string_views,
};
use crate::text::{chars_of, slice_of, str_equals, string_from_chars};
use vstd::utf8::encode_utf8;

verus! {

// ---------------------------------------------------------------------------
// Open documents
// ---------------------------------------------------------------------------

/// The URIs of a list of documents.
pub open spec fn document_uris(docs: Seq<(Seq<char>, Seq<char>)>) -> Seq<Seq<char>> {
    docs.map_values(|d: (Seq<char>, Seq<char>)| d.0)
}

/// The text of the open document `uri`.
pub open spec fn document_text(docs: Seq<(Seq<char>, Seq<char>)>, uri: Seq<char>) -> Option<Seq<char>>
    decreases docs.len(),
{
    if docs.len() == 0 {
        None
    } else if docs.last().0 == uri {
        Some(docs.last().1)
    } else {
        document_text(docs.drop_last(), uri)
    }
}

/// The open documents as a map from URI to text.
pub open spec fn documents_map(docs: Seq<(Seq<char>, Seq<char>)>) -> Map<Seq<char>, Seq<char>>
    decreases docs.len(),
{
    if docs.len() == 0 {
        Map::empty()
    } else {
        documents_map(docs.drop_last()).insert(docs.last().0, docs.last().1)
    }
}

/// The index of the open document `uri`.
pub open spec fn document_index(docs: Seq<(Seq<char>, Seq<char>)>, uri: Seq<char>) -> Option<int> {
    if exists|i: int| 0 <= i < docs.len() && docs[i].0 == uri {
        Some(choose|i: int| 0 <= i < docs.len() && docs[i].0 == uri)
    } else {
        None
    }
}

/// The documents after opening (or replacing the text of) `uri`.
pub open spec fn with_document(docs: Seq<(Seq<char>, Seq<char>)>, uri: Seq<char>, text: Seq<char>) -> Seq<
    (Seq<char>, Seq<char>),
> {
    match document_index(docs, uri) {
        Some(i) => docs.update(i, (uri, text)),
        None => docs.push((uri, text)),
    }
}

/// The documents after closing `uri`.
pub open spec fn without_document(docs: Seq<(Seq<char>, Seq<char>)>, uri: Seq<char>) -> Seq<
    (Seq<char>, Seq<char>),
> {
    match document_index(docs, uri) {
        Some(i) => docs.remove(i),
        None => docs,
    }
}

pub proof fn lemma_documents_map_facts(docs: Seq<(Seq<char>, Seq<char>)>)
    requires
        document_uris(docs).no_duplicates(),
    ensures
        forall|i: int| 0 <= i < docs.len() ==> #[trigger] documents_map(docs).contains_key(docs[i].0)
            && documents_map(docs)[docs[i].0] == docs[i].1,
        forall|u: Seq<char>| #[trigger] documents_map(docs).contains_key(u) ==> exists|i: int|
            0 <= i < docs.len() && docs[i].0 == u,
        forall|u: Seq<char>| documents_map(docs).contains_key(u) ==> #[trigger] document_text(docs, u)
            == Some(documents_map(docs)[u]),
        forall|u: Seq<char>| !documents_map(docs).contains_key(u) ==> #[trigger] document_text(docs, u)
            is None,
    decreases docs.len(),
{
    if docs.len() > 0 {
        let rest = docs.drop_last();
        let last = docs.last();
        let n = docs.len() - 1;
        assert(document_uris(rest) =~= document_uris(docs).drop_last());
        lemma_documents_map_facts(rest);
        let m = documents_map(rest);
        assert(documents_map(docs) == m.insert(last.0, last.1));
        assert forall|i: int| 0 <= i < docs.len() implies #[trigger] documents_map(docs).contains_key(docs[i].0)
            && documents_map(docs)[docs[i].0] == docs[i].1 by {
            if i < n {
                assert(rest[i] == docs[i]);
                assert(document_uris(docs)[i] == docs[i].0);
                assert(document_uris(docs)[n] == last.0);
                assert(document_uris(docs)[i] != document_uris(docs)[n]);
                assert(m.contains_key(rest[i].0));
            }
        }
        assert forall|u: Seq<char>| #[trigger] documents_map(docs).contains_key(u) implies exists|i: int|
            0 <= i < docs.len() && docs[i].0 == u by {
            if u != last.0 {
                assert(m.contains_key(u));
                let i = choose|i: int| 0 <= i < rest.len() && rest[i].0 == u;
                assert(docs[i] == rest[i]);
            } else {
                assert(docs[n].0 == u);
            }
        }
        assert forall|u: Seq<char>| documents_map(docs).contains_key(u) implies #[trigger] document_text(docs, u)
            == Some(documents_map(docs)[u]) by {
            if u != last.0 {
                assert(m.contains_key(u));
                assert(document_text(rest, u) == Some(m[u]));
            }
        }
        assert forall|u: Seq<char>| !documents_map(docs).contains_key(u) implies #[trigger] document_text(docs, u)
            is None by {
            assert(!m.contains_key(u));
            assert(document_text(rest, u) is None);
        }
    }
}

proof fn lemma_document_index(docs: Seq<(Seq<char>, Seq<char>)>, uri: Seq<char>, i: int)
    requires
        document_uris(docs).no_duplicates(),
        0 <= i < docs.len(),
        docs[i].0 == uri,
    ensures
        document_index(docs, uri) == Some(i),
{
    assert(exists|k: int| 0 <= k < docs.len() && docs[k].0 == uri);
    let j = document_index(docs, uri)->0;
    assert(0 <= j < docs.len() && docs[j].0 == uri);
    assert(document_uris(docs)[i] == uri);
    assert(document_uris(docs)[j] == uri);
    if i != j {
        assert(document_uris(docs)[i] != document_uris(docs)[j]);
    }
}

/// Opening a document records its text: the map of open documents gains (or
/// replaces) the entry for `uri`, and URIs stay unique.
pub proof fn law_open_document(docs: Seq<(Seq<char>, Seq<char>)>, uri: Seq<char>, text: Seq<char>)
    requires
        document_uris(docs).no_duplicates(),
    ensures
        document_uris(with_document(docs, uri, text)).no_duplicates(),
        documents_map(with_document(docs, uri, text)) == documents_map(docs).insert(uri, text),
        document_text(with_document(docs, uri, text), uri) == Some(text),
{
    let after = with_document(docs, uri, text);
    let ghost bu = document_uris(docs);
    let ghost au = document_uris(after);
    match document_index(docs, uri) {
        Some(i) => {
            assert(au =~= bu.update(i, uri));
            assert forall|a: int, b: int| 0 <= a < b < au.len() implies au[a] != au[b] by {
                if a != i && b != i {
                    assert(au[a] == bu[a] && au[b] == bu[b]);
                } else if a == i {
                    assert(bu[i] == uri);
                } else {
                    assert(bu[i] == uri);
                }
            }
        },
        None => {
            assert(au =~= bu.push(uri));
            assert forall|a: int, b: int| 0 <= a < b < au.len() implies au[a] != au[b] by {
                if b == bu.len() {
                    assert(docs[a].0 == bu[a]);
                }
            }
        },
    }
    lemma_documents_map_facts(docs);
    lemma_documents_map_facts(after);
    assert forall|u: Seq<char>| #[trigger] documents_map(after).contains_key(u)
        <==> documents_map(docs).insert(uri, text).contains_key(u) by {
        if documents_map(after).contains_key(u) {
            let k = choose|k: int| 0 <= k < after.len() && after[k].0 == u;
            match document_index(docs, uri) {
                Some(i) => {
                    if k != i {
                        assert(after[k] == docs[k]);
                    }
                },
                None => {
                    if k < docs.len() {
                        assert(after[k] == docs[k]);
                    }
                },
            }
        }
        if documents_map(docs).insert(uri, text).contains_key(u) && u != uri {
            let k = choose|k: int| 0 <= k < docs.len() && docs[k].0 == u;
            match document_index(docs, uri) {
                Some(i) => {
                    assert(after[k] == docs[k]);
                },
                None => {
                    assert(after[k] == docs[k]);
                },
            }
        }
        if u == uri {
            match document_index(docs, uri) {
                Some(i) => {
                    assert(after[i].0 == uri);
                },
                None => {
                    assert(after[docs.len() as int].0 == uri);
                },
            }
        }
    }
    assert forall|u: Seq<char>| #[trigger] documents_map(after).contains_key(u) implies documents_map(
        after,
    )[u] == documents_map(docs).insert(uri, text)[u] by {
        let k = choose|k: int| 0 <= k < after.len() && after[k].0 == u;
        assert(documents_map(after).contains_key(after[k].0));
        match document_index(docs, uri) {
            Some(i) => {
                assert(0 <= i < docs.len() && docs[i].0 == uri);
                if k != i {
                    assert(after[k] == docs[k]);
                    assert(documents_map(docs).contains_key(docs[k].0));
                    if u == uri {
                        assert(document_uris(docs)[k] == document_uris(docs)[i]);
                    }
                }
            },
            None => {
                if k < docs.len() {
                    assert(after[k] == docs[k]);
                    assert(documents_map(docs).contains_key(docs[k].0));
                }
            },
        }
    }
    assert(documents_map(after) =~= documents_map(docs).insert(uri, text));
}

/// Closing a document forgets it: the map of open documents loses the entry
/// for `uri`, and URIs stay unique.
pub proof fn law_close_document(docs: Seq<(Seq<char>, Seq<char>)>, uri: Seq<char>)
    requires
        document_uris(docs).no_duplicates(),
    ensures
        document_uris(without_document(docs, uri)).no_duplicates(),
        documents_map(without_document(docs, uri)) == documents_map(docs).remove(uri),
        document_text(without_document(docs, uri), uri) is None,
{
    let after = without_document(docs, uri);
    let ghost bu = document_uris(docs);
    let ghost au = document_uris(after);
    match document_index(docs, uri) {
        Some(i) => {
            assert(au =~= bu.remove(i));
            assert forall|a: int, b: int| 0 <= a < b < au.len() implies au[a] != au[b] by {
                let a2 = if a < i { a } else { a + 1 };
                let b2 = if b < i { b } else { b + 1 };
                assert(au[a] == bu[a2]);
                assert(au[b] == bu[b2]);
            }
        },
        None => {},
    }
    lemma_documents_map_facts(docs);
    lemma_documents_map_facts(after);
    assert forall|u: Seq<char>| #[trigger] documents_map(after).contains_key(u)
        <==> documents_map(docs).remove(uri).contains_key(u) by {
        match document_index(docs, uri) {
            Some(i) => {
                if documents_map(after).contains_key(u) {
                    let k = choose|k: int| 0 <= k < after.len() && after[k].0 == u;
                    let k2 = if k < i { k } else { k + 1 };
                    assert(after[k] == docs[k2]);
                    assert(bu[k2] == u && bu[i] == uri);
                }
                if documents_map(docs).remove(uri).contains_key(u) {
                    let k = choose|k: int| 0 <= k < docs.len() && docs[k].0 == u;
                    assert(k != i);
                    let k2 = if k < i { k } else { k - 1 };
                    assert(after[k2] == docs[k]);
                }
            },
            None => {
                if documents_map(docs).contains_key(uri) {
                    let k = choose|k: int| 0 <= k < docs.len() && docs[k].0 == uri;
                }
            },
        }
    }
    assert forall|u: Seq<char>| #[trigger] documents_map(after).contains_key(u) implies documents_map(
        after,
    )[u] == documents_map(docs).remove(uri)[u] by {
        let k = choose|k: int| 0 <= k < after.len() && after[k].0 == u;
        match document_index(docs, uri) {
            Some(i) => {
                let k2 = if k < i { k } else { k + 1 };
                assert(after[k] == docs[k2]);
            },
            None => {},
        }
    }
    assert(documents_map(after) =~= documents_map(docs).remove(uri));
}

// ---------------------------------------------------------------------------
// Incremental edits
// ---------------------------------------------------------------------------

/// The number of characters of the first `n` lines, each with its line feed.
pub open spec fn lines_prefix_len(lines: Seq<Seq<char>>, n: int) -> int
    decreases n,
{
    if n <= 0 {
        0
    } else {
        lines_prefix_len(lines, n - 1) + lines[n - 1].len() + 1
    }
}

proof fn lemma_lines_prefix_cons(first: Seq<char>, rest: Seq<Seq<char>>, n: int)
    requires
        n >= 1,
        n <= rest.len() + 1,
    ensures
        lines_prefix_len(seq![first] + rest, n) == first.len() + 1 + lines_prefix_len(rest, n - 1),
    decreases n,
{
    let s = seq![first] + rest;
    if n > 1 {
        lemma_lines_prefix_cons(first, rest, n - 1);
        assert(s[n - 1] == rest[n - 2]);
        assert(lines_prefix_len(rest, n - 1) == lines_prefix_len(rest, n - 2) + rest[n - 2].len() + 1);
    } else {
        assert(s[0] == first);
        assert(lines_prefix_len(s, 0) == 0);
        assert(lines_prefix_len(rest, 0) == 0);
    }
}

proof fn lemma_line_offsets(text: Seq<char>, n: int)
    requires
        0 <= n < split_lines(text).len(),
    ensures
        lines_prefix_len(split_lines(text), n) + split_lines(text)[n].len() <= text.len(),
    decreases text.len(),
{
    crate::position::lemma_first_index_of(text, '\n');
    match crate::position::first_index_of(text, '\n') {
        None => {},
        Some(i) => {
            let rest = text.skip(i + 1);
            let first = text.take(i);
            assert(split_lines(text) == seq![first] + split_lines(rest));
            if n > 0 {
                lemma_line_offsets(rest, n - 1);
                lemma_lines_prefix_cons(first, split_lines(rest), n);
            }
        },
    }
}

/// The character offset in `text` of UTF-16 column `character` on line
/// `line` (the last line when `line` is past the end).
pub open spec fn absolute_offset_spec(text: Seq<char>, line: int, character: int) -> int {
    let lines = split_lines(text);
    let n = if line < lines.len() - 1 {
        line
    } else {
        lines.len() - 1
    };
    lines_prefix_len(lines, n) + utf16_char_index(lines[n], character)
}

/// Positions count lines from the top: in text without a line feed every line
/// number names its one line; in `first`, a line feed and `rest`, line 0 is in
/// `first` and line `n + 1` lies `first.len() + 1` characters further on than
/// line `n` of `rest` (so a line past the end names the last line). Within a
/// line the column is counted in UTF-16 units.
pub proof fn law_position_offsets(first: Seq<char>, rest: Seq<char>, line: int, character: int)
    requires
        forall|k: int| 0 <= k < first.len() ==> first[k] != '\n',
        line >= 0,
    ensures
        absolute_offset_spec(first, line, character) == utf16_char_index(first, character),
        absolute_offset_spec(first + seq!['\n'] + rest, 0, character) == utf16_char_index(first, character),
        absolute_offset_spec(first + seq!['\n'] + rest, line + 1, character) == first.len() + 1
            + absolute_offset_spec(rest, line, character),
{
    crate::position::lemma_first_index_of(first, '\n');
    assert(split_lines(first) == seq![first]);
    let text = first + seq!['\n'] + rest;
    assert forall|k: int| 0 <= k < first.len() implies text[k] != '\n' by {
        assert(text[k] == first[k]);
    }
    assert(text[first.len() as int] == '\n');
    crate::position::lemma_first_index_of_unique(text, '\n', first.len() as int);
    assert(text.take(first.len() as int) =~= first);
    assert(text.skip(first.len() + 1 as int) =~= rest);
    let tail = split_lines(rest);
    crate::position::lemma_split_lines_nonempty(rest);
    assert(split_lines(text) == seq![first] + tail);
    assert((seq![first] + tail)[0] == first);
    assert(lines_prefix_len(seq![first] + tail, 0) == 0);
    let n = if line < tail.len() - 1 {
        line
    } else {
        tail.len() - 1
    };
    lemma_lines_prefix_cons(first, tail, n + 1);
    assert((seq![first] + tail)[n + 1] == tail[n]);
}

/// The character offset in `text` of an LSP position (see `absolute_offset_spec`).
pub fn absolute_offset(text: &[char], line_number: usize, character: usize) -> (r: usize)
    ensures
        r == absolute_offset_spec(text@, line_number as int, character as int),
        r <= text@.len(),
{
    let lines = split_lines_of(text);
    let ghost lv = split_lines(text@);
    let last = lines.len() - 1;
    let n = if line_number < last {
        line_number
    } else {
        last
    };
    proof {
        lemma_line_offsets(text@, n as int);
    }
    let total = text.len();
    let mut before: usize = 0;
    let mut k: usize = 0;
    while k < n
        invariant
            total == text@.len(),
            k <= n < lines@.len(),
            views(lines@) == lv,
            lv == split_lines(text@),
            lines_prefix_len(lv, n as int) + lv[n as int].len() <= text@.len(),
            before == lines_prefix_len(lv, k as int),
        decreases n - k,
    {
        proof {
            assert(lv[k as int] == lines@[k as int]@);
            lemma_prefix_mono(lv, k + 1, n as int);
        }
        before = before + lines[k].len() + 1;
        k += 1;
    }
    assert(lv[n as int] == lines@[n as int]@);
    let index = utf16_to_char_index_of(lines[n].as_slice(), character);
    proof {
        lemma_utf16_char_index_bound(lv[n as int], character as int);
    }
    before + index
}

proof fn lemma_prefix_mono(lines: Seq<Seq<char>>, a: int, b: int)
    requires
        0 <= a <= b,
    ensures
        lines_prefix_len(lines, a) <= lines_prefix_len(lines, b),
    decreases b - a,
{
    if a < b {
        lemma_prefix_mono(lines, a, b - 1);
    }
}

/// `j[key]` as serde reads it: the member, or `null` when missing.
pub open spec fn member(j: Json, key: Seq<char>) -> Json {
    match j.field(key) {
        Some(v) => v,
        None => Json::Null,
    }
}

/// The text of a change, empty when missing.
pub open spec fn change_text(change: Json) -> Seq<char> {
    match change.field("text"@) {
        Some(t) => match t.text() {
            Some(s) => s,
            None => Seq::empty(),
        },
        None => Seq::empty(),
    }
}

/// `current` with the range of `change` replaced by its text.
pub open spec fn apply_change_spec(current: Seq<char>, change: Json) -> Seq<char> {
    let start = member(member(change, "range"@), "start"@);
    let end = member(member(change, "range"@), "end"@);
    let s = absolute_offset_spec(
        current,
        position_number(start, "line"@) as usize as int,
        position_number(start, "character"@) as usize as int,
    );
    let e = absolute_offset_spec(
        current,
        position_number(end, "line"@) as usize as int,
        position_number(end, "character"@) as usize as int,
    );
    current.take(s) + change_text(change) + current.skip(e)
}

fn text_member(j: &Json) -> (r: Vec<char>)
    ensures
        r@ == change_text(*j),
{
    match j.get("text") {
        Some(t) => match t.as_str() {
            Some(s) => chars_of(s),
            None => Vec::new(),
        },
        None => Vec::new(),
    }
}

fn number_at(j: &Json, outer: &str, inner: &str, key: &str) -> (r: u64)
    ensures
        r == position_number(member(member(*j, outer@), inner@), key@),
{
    let a = match j.get(outer) {
        Some(v) => v.get(inner),
        None => None,
    };
    match a {
        Some(p) => match p.get(key) {
            Some(v) => match v.as_u64() {
                Some(n) => n,
                None => 0,
            },
            None => 0,
        },
        None => 0,
    }
}

fn apply_change_chars(current: &[char], change: &Json) -> (r: Vec<char>)
    ensures
        r@ == apply_change_spec(current@, *change),
{
    let start_line = number_at(change, "range", "start", "line") as usize;
    let start_character = number_at(change, "range", "start", "character") as usize;
    let end_line = number_at(change, "range", "end", "line") as usize;
    let end_character = number_at(change, "range", "end", "character") as usize;
    let s = absolute_offset(current, start_line, start_character);
    let e = absolute_offset(current, end_line, end_character);
    let mut out = slice_of(current, 0, s);
    let text = text_member(change);
    let mut i: usize = 0;
    let ghost head = out@;
    while i < text.len()
        invariant
            i <= text@.len(),
            out@ == head + text@.take(i as int),
        decreases text@.len() - i,
    {
        out.push(text[i]);
        assert(text@.take(i + 1) =~= text@.take(i as int).push(text@[i as int]));
        i += 1;
    }
    let mut j = e;
    let ghost mid = out@;
    while j < current.len()
        invariant
            e <= j <= current@.len(),
            out@ == mid + current@.subrange(e as int, j as int),
        decreases current@.len() - j,
    {
        out.push(current[j]);
        assert(current@.subrange(e as int, j + 1) =~= current@.subrange(e as int, j as int).push(
            current@[j as int],
        ));
        j += 1;
    }
    assert(out@ =~= current@.take(s as int) + change_text(*change) + current@.skip(e as int));
    out
}

/// `current` with the range of an incremental `change` replaced by its text.
pub fn apply_change(current: &str, change: &Json) -> (r: String)
    ensures
        r@ == apply_change_spec(current@, *change),
{
    let chars = chars_of(current);
    let out = apply_change_chars(chars.as_slice(), change);
    string_from_chars(out.as_slice())
}

// ---------------------------------------------------------------------------
// Steps of a request
// ---------------------------------------------------------------------------

/// What a request asks about the symbol under the cursor.
pub enum RequestKind {
    Definition,
    References { include_declaration: bool },
}

/// A request waiting for work that only the caller can do.
pub enum Pending {
    /// Waiting for the text of a document that is not open.
    NeedText { kind: RequestKind, uri: String, line: u64, character: u64 },
    /// Waiting for the search behind a definition request.
    Definition { uri: String, symbol: String },
    /// Waiting for the case-insensitive search of a definition request; `first`
    /// is the answer found by the first search.
    Broader { uri: String, symbol: String, first: Vec<Occurrence> },
    /// Waiting for the search behind a references request.
    References { symbol: String, include_declaration: bool },
}

/// The result of a request.
pub enum Reply {
    Null,
    /// The answer to `initialize`: the server's capabilities.
    Initialized,
    Locations(Vec<Occurrence>),
}

/// What the caller does next for a request.
pub enum Step {
    /// Send the reply.
    Reply(Reply),
    /// Make `path` absolute and canonical, give it to `set_root`, then send the reply.
    SetRoot { path: String, reply: Reply },
    /// Read the file at `path` (after making it absolute and canonical) and
    /// resume with `Outcome::FileText`.
    ReadFile { path: String, pending: Pending },
    /// Search the files under the root for `symbol` with the given case
    /// sensitivity; make each of `paths` absolute and canonical, in order; then
    /// resume with `Outcome::Found`.
    Search { symbol: String, case_sensitive: bool, paths: Vec<String>, pending: Pending },
}

/// What the caller found for a pending request.
pub enum Outcome {
    /// The text of the file, `None` when it could not be read.
    FileText(Option<String>),
    /// The occurrences found in files, and the canonical form of each path that
    /// `Step::Search` listed.
    Found { disk: Vec<Occurrence>, paths: Vec<String> },
}

pub enum RequestKindView {
    Definition,
    References { include_declaration: bool },
}

pub enum PendingView {
    NeedText { kind: RequestKindView, uri: Seq<char>, line: u64, character: u64 },
    Definition { uri: Seq<char>, symbol: Seq<char> },
    Broader { uri: Seq<char>, symbol: Seq<char>, first: Seq<OccurrenceView> },
    References { symbol: Seq<char>, include_declaration: bool },
}

pub enum ReplyView {
    Null,
    Initialized,
    Locations(Seq<OccurrenceView>),
}

pub enum StepView {
    Reply(ReplyView),
    SetRoot { path: Seq<char>, reply: ReplyView },
    ReadFile { path: Seq<char>, pending: PendingView },
    Search { symbol: Seq<char>, case_sensitive: bool, paths: Seq<Seq<char>>, pending: PendingView },
}

pub enum OutcomeView {
    FileText(Option<Seq<char>>),
    Found { disk: Seq<OccurrenceView>, paths: Seq<Seq<char>> },
}

impl View for RequestKind {
    type V = RequestKindView;

    open spec fn view(&self) -> RequestKindView {
        match self {
            RequestKind::Definition => RequestKindView::Definition,
            RequestKind::References { include_declaration } => RequestKindView::References {
                include_declaration: *include_declaration,
            },
        }
    }
}

impl View for Pending {
    type V = PendingView;

    open spec fn view(&self) -> PendingView {
        match self {
            Pending::NeedText { kind, uri, line, character } => PendingView::NeedText {
                kind: kind@,
                uri: uri@,
                line: *line,
                character: *character,
            },
            Pending::Definition { uri, symbol } => PendingView::Definition {
                uri: uri@,
                symbol: symbol@,
            },
            Pending::Broader { uri, symbol, first } => PendingView::Broader {
                uri: uri@,
                symbol: symbol@,
                first: occurrence_views(first@),
            },
            Pending::References { symbol, include_declaration } => PendingView::References {
                symbol: symbol@,
                include_declaration: *include_declaration,
            },
        }
    }
}

impl View for Reply {
    type V = ReplyView;

    open spec fn view(&self) -> ReplyView {
        match self {
            Reply::Null => ReplyView::Null,
            Reply::Initialized => ReplyView::Initialized,
            Reply::Locations(items) => ReplyView::Locations(occurrence_views(items@)),
        }
    }
}

impl View for Step {
    type V = StepView;

    open spec fn view(&self) -> StepView {
        match self {
            Step::Reply(r) => StepView::Reply(r@),
            Step::SetRoot { path, reply } => StepView::SetRoot { path: path@, reply: reply@ },
            Step::ReadFile { path, pending } => StepView::ReadFile { path: path@, pending: pending@ },
            Step::Search { symbol, case_sensitive, paths, pending } => StepView::Search {
                symbol: symbol@,
                case_sensitive: *case_sensitive,
                paths: string_views(paths@),
                pending: pending@,
            },
        }
    }
}

impl View for Outcome {
    type V = OutcomeView;

    open spec fn view(&self) -> OutcomeView {
        match self {
            Outcome::FileText(t) => OutcomeView::FileText(
                match t {
                    Some(s) => Some(s@),
                    None => None,
                },
            ),
            Outcome::Found { disk, paths } => OutcomeView::Found {
                disk: occurrence_views(disk@),
                paths: string_views(paths@),
            },
        }
    }
}

// ---------------------------------------------------------------------------
// The server's state
// ---------------------------------------------------------------------------

/// The search settings as values.
pub struct ConfigView {
    pub max_results: usize,
    pub case_sensitive: bool,
    pub include_patterns: Seq<Seq<char>>,
    pub exclude_patterns: Seq<Seq<char>>,
}

pub open spec fn config_view(c: ServerConfig) -> ConfigView {
    ConfigView {
        max_results: c.max_results,
        case_sensitive: c.case_sensitive,
        include_patterns: string_views(c.include_patterns@),
        exclude_patterns: string_views(c.exclude_patterns@),
    }
}

/// The server's state as values: the workspace root, the settings and the open
/// documents (URI and text, each URI once).
pub struct ServerState {
    pub root: Seq<char>,
    pub config: ConfigView,
    pub documents: Seq<(Seq<char>, Seq<char>)>,
}

/// A language server answering definition and reference requests by text search.
pub struct LspServer {
    root: String,
    config: ServerConfig,
    documents: Vec<Document>,
}

impl LspServer {
    #[verifier::type_invariant]
    spec fn unique_documents(self) -> bool {
        document_uris(document_views(self.documents@)).no_duplicates()
    }

    /// The state of the server.
    pub closed spec fn state(self) -> ServerState {
        ServerState {
            root: self.root@,
            config: config_view(self.config),
            documents: document_views(self.documents@),
        }
    }

    /// A server for the workspace at `root` (absolute and canonical), with the
    /// default settings and no open document.
    pub fn new(root: String) -> (r: LspServer)
        ensures
            r.state().root == root@,
            r.state().config.max_results == 1000,
            r.state().config.case_sensitive,
            r.state().config.include_patterns.len() == 0,
            r.state().config.exclude_patterns.len() == 0,
            r.state().documents.len() == 0,
    {
        let r = LspServer { root, config: ServerConfig::default(), documents: Vec::new() };
        assert(document_uris(document_views(r.documents@)) =~= Seq::<Seq<char>>::empty());
        assert(string_views(r.config.include_patterns@) =~= Seq::<Seq<char>>::empty());
        assert(string_views(r.config.exclude_patterns@) =~= Seq::<Seq<char>>::empty());
        r
    }

    /// The workspace root.
    pub fn root(&self) -> (r: &str)
        ensures
            r@ == self.state().root,
    {
        self.root.as_str()
    }

    /// The search settings.
    pub fn config(&self) -> (r: &ServerConfig)
        ensures
            config_view(*r) == self.state().config,
    {
        &self.config
    }

    /// The number of open documents; `resume` expects one path more than this
    /// from a search.
    pub fn open_documents(&self) -> (r: usize)
        ensures
            r == self.state().documents.len(),
    {
        self.documents.len()
    }

    /// Sets the workspace root (absolute and canonical).
    pub fn set_root(&mut self, root: String)
        ensures
            final(self).state().root == root@,
            final(self).state().config == old(self).state().config,
            final(self).state().documents == old(self).state().documents,
    {
        proof {
            use_type_invariant(&*self);
        }
        self.root = root;
    }

    /// The index of the open document `uri`.
    fn find_document(&self, uri: &str) -> (r: Option<usize>)
        ensures
            match r {
                Some(i) => i < self.documents@.len() && self.documents@[i as int].uri@ == uri@
                    && document_text(self.state().documents, uri@) == Some(self.documents@[i as int].text@),
                None => document_text(self.state().documents, uri@) is None,
            },
    {
        proof {
            use_type_invariant(&*self);
            lemma_documents_map_facts(document_views(self.documents@));
        }
        let key = uri.to_owned();
        let mut i: usize = 0;
        while i < self.documents.len()
            invariant
                i <= self.documents@.len(),
                key@ == uri@,
                document_uris(document_views(self.documents@)).no_duplicates(),
                forall|k: int| 0 <= k < i ==> self.documents@[k].uri@ != uri@,
            decreases self.documents@.len() - i,
        {
            if self.documents[i].uri == key {
                proof {
                    let dv = document_views(self.documents@);
                    lemma_documents_map_facts(dv);
                    assert(dv[i as int] == document_view(self.documents@[i as int]));
                    assert(documents_map(dv).contains_key(dv[i as int].0));
                }
                return Some(i);
            }
            i += 1;
        }
        proof {
            let dv = document_views(self.documents@);
            lemma_documents_map_facts(dv);
            if documents_map(dv).contains_key(uri@) {
                let k = choose|k: int| 0 <= k < dv.len() && dv[k].0 == uri@;
                assert(dv[k] == document_view(self.documents@[k]));
            }
        }
        None
    }

    /// Records `text` as the text of the open document `uri`.
    fn put_document(&mut self, uri: String, text: String)
        ensures
            final(self).state().documents == with_document(old(self).state().documents, uri@, text@),
            final(self).state().root == old(self).state().root,
            final(self).state().config == old(self).state().config,
    {
        proof {
            use_type_invariant(&*self);
        }
        let ghost before = document_views(self.documents@);
        let found = self.find_document(uri.as_str());
        let mut docs: Vec<Document> = Vec::new();
        std::mem::swap(&mut docs, &mut self.documents);
        assert(docs@ == old(self).documents@);
        let ghost entry = (uri@, text@);
        let d = Document { uri, text };
        match found {
            Some(i) => {
                proof {
                    lemma_document_index(before, entry.0, i as int);
                }
                docs.set(i, d);
                assert(document_views(docs@) =~= before.update(i as int, entry));
            },
            None => {
                proof {
                    lemma_documents_map_facts(before);
                    if document_index(before, entry.0) is Some {
                        let k = document_index(before, entry.0)->0;
                        assert(0 <= k < before.len() && before[k].0 == entry.0);
                        assert(documents_map(before).contains_key(before[k].0));
                    }
                }
                docs.push(d);
                assert(document_views(docs@) =~= before.push(entry));
            },
        }
        proof {
            law_open_document(before, entry.0, entry.1);
        }
        self.documents = docs;
    }

    /// Forgets the open document `uri`.
    fn remove_document(&mut self, uri: &str)
        ensures
            final(self).state().documents == without_document(old(self).state().documents, uri@),
            final(self).state().root == old(self).state().root,
            final(self).state().config == old(self).state().config,
    {
        proof {
            use_type_invariant(&*self);
        }
        let ghost before = document_views(self.documents@);
        let found = self.find_document(uri);
        let mut docs: Vec<Document> = Vec::new();
        std::mem::swap(&mut docs, &mut self.documents);
        assert(docs@ == old(self).documents@);
        match found {
            Some(i) => {
                proof {
                    lemma_document_index(before, uri@, i as int);
                }
                docs.remove(i);
                assert(document_views(docs@) =~= before.remove(i as int));
            },
            None => {
                proof {
                    lemma_documents_map_facts(before);
                    if document_index(before, uri@) is Some {
                        let k = document_index(before, uri@)->0;
                        assert(0 <= k < before.len() && before[k].0 == uri@);
                        assert(documents_map(before).contains_key(before[k].0));
                    }
                }
            },
        }
        proof {
            law_close_document(before, uri@);
        }
        self.documents = docs;
    }
}

// ---------------------------------------------------------------------------
// Reading requests
// ---------------------------------------------------------------------------

/// The paths a search needs in canonical form: the requesting document's,
/// then each open document's, in order.
pub open spec fn search_paths_spec(uri: Seq<char>, docs: Seq<(Seq<char>, Seq<char>)>) -> Seq<Seq<char>> {
    seq![path_of_uri(uri)] + docs.map_values(|d: (Seq<char>, Seq<char>)| path_of_uri(d.0))
}

/// `params["textDocument"]["uri"]` as text.
pub open spec fn request_uri(params: Json) -> Option<Seq<char>> {
    member(member(params, "textDocument"@), "uri"@).text()
}

/// The line of `params["position"]`, 0 when missing.
pub open spec fn request_line(params: Json) -> u64 {
    position_number(member(params, "position"@), "line"@)
}

/// The UTF-16 column of `params["position"]`, 0 when missing.
pub open spec fn request_character(params: Json) -> u64 {
    position_number(member(params, "position"@), "character"@)
}

/// The step once the symbol under the cursor is known: no symbol gives an empty
/// answer; otherwise the workspace is searched with the configured case sensitivity.
pub open spec fn symbol_step(
    kind: RequestKindView,
    uri: Seq<char>,
    symbol: Option<Seq<char>>,
    state: ServerState,
) -> StepView {
    match symbol {
        None => StepView::Reply(ReplyView::Locations(Seq::empty())),
        Some(s) => StepView::Search {
            symbol: s,
            case_sensitive: state.config.case_sensitive,
            paths: search_paths_spec(uri, state.documents),
            pending: match kind {
                RequestKindView::Definition => PendingView::Definition { uri, symbol: s },
                RequestKindView::References { include_declaration } => PendingView::References {
                    symbol: s,
                    include_declaration,
                },
            },
        },
    }
}

/// The first step of a definition or references request: the symbol comes from
/// the open document's text, or from the file when the document is not open.
pub open spec fn lookup_step(kind: RequestKindView, params: Json, state: ServerState) -> StepView {
    match request_uri(params) {
        None => StepView::Reply(ReplyView::Locations(Seq::empty())),
        Some(uri) => match document_text(state.documents, uri) {
            Some(text) => symbol_step(
                kind,
                uri,
                symbol_at_spec(text, request_line(params), request_character(params)),
                state,
            ),
            None => StepView::ReadFile {
                path: path_of_uri(uri),
                pending: PendingView::NeedText {
                    kind,
                    uri,
                    line: request_line(params),
                    character: request_character(params),
                },
            },
        },
    }
}

/// The elements of a JSON array.
pub open spec fn json_items(j: Json) -> Option<Seq<Json>> {
    match j {
        Json::Array(items) => Some(items@),
        _ => None,
    }
}

/// The strings among `items`, in order.
pub open spec fn texts_of(items: Seq<Json>) -> Seq<Seq<char>>
    decreases items.len(),
{
    if items.len() == 0 {
        Seq::empty()
    } else {
        texts_of(items.drop_last()) + match items.last().text() {
            Some(t) => seq![t],
            None => Seq::empty(),
        }
    }
}

/// The key of the option listing the file patterns to search.
pub open spec fn patterns_key() -> Seq<char> {
    seq!['i', 'n', 'c', 'l', 'u', 'd', 'e']
}

/// The root that `initialize` names: `rootUri`, else `rootPath`, else the first
/// workspace folder's URI.
pub open spec fn initialize_root(params: Json) -> Option<Seq<char>> {
    match member(params, "rootUri"@).text() {
        Some(u) => Some(path_of_uri(u)),
        None => match member(params, "rootPath"@).text() {
            Some(p) => Some(p),
            None => match member(
                match member(params, "workspaceFolders"@).element(0) {
                    Some(f) => f,
                    None => Json::Null,
                },
                "uri"@,
            ).text() {
                Some(u) => Some(path_of_uri(u)),
                None => None,
            },
        },
    }
}

/// The settings after `initialize`: each option present in
/// `initializationOptions` (an object) replaces the setting.
pub open spec fn configured(c: ConfigView, params: Json) -> ConfigView {
    match params.field("initializationOptions"@) {
        Some(o) => if o is Object {
            ConfigView {
                max_results: match member(o, "maxResults"@).unsigned() {
                    Some(m) => (if m >= 1 {
                        m
                    } else {
                        1
                    }) as usize,
                    None => c.max_results,
                },
                case_sensitive: match member(o, "caseSensitive"@).boolean() {
                    Some(b) => b,
                    None => c.case_sensitive,
                },
                include_patterns: match json_items(member(o, patterns_key())) {
                    Some(items) => texts_of(items),
                    None => c.include_patterns,
                },
                exclude_patterns: match json_items(member(o, "exclude"@)) {
                    Some(items) => texts_of(items),
                    None => c.exclude_patterns,
                },
            }
        } else {
            c
        },
        None => c,
    }
}

/// A change replaces the whole text when it has no range.
pub open spec fn applied(current: Seq<char>, change: Json) -> Seq<char> {
    if change.field("range"@) is None {
        change_text(change)
    } else {
        apply_change_spec(current, change)
    }
}

/// `current` after the changes, in order.
pub open spec fn apply_changes(current: Seq<char>, changes: Seq<Json>) -> Seq<char>
    decreases changes.len(),
{
    if changes.len() == 0 {
        current
    } else {
        applied(apply_changes(current, changes.drop_last()), changes.last())
    }
}

/// The text of document `uri` after a `didChange` (an unknown document starts empty).
pub open spec fn changed_text(docs: Seq<(Seq<char>, Seq<char>)>, uri: Seq<char>, params: Json) -> Seq<char> {
    let current = match document_text(docs, uri) {
        Some(t) => t,
        None => Seq::empty(),
    };
    match json_items(member(params, "contentChanges"@)) {
        Some(items) => apply_changes(current, items),
        None => current,
    }
}

/// The open documents after `didOpen`.
pub open spec fn opened_documents(docs: Seq<(Seq<char>, Seq<char>)>, params: Json) -> Seq<(Seq<char>, Seq<char>)> {
    let d = member(params, "textDocument"@);
    match (member(d, "uri"@).text(), member(d, "text"@).text()) {
        (Some(u), Some(t)) => with_document(docs, u, t),
        _ => docs,
    }
}

/// The open documents after `didChange`.
pub open spec fn changed_documents(docs: Seq<(Seq<char>, Seq<char>)>, params: Json) -> Seq<(Seq<char>, Seq<char>)> {
    match request_uri(params) {
        Some(u) => with_document(docs, u, changed_text(docs, u, params)),
        None => docs,
    }
}

/// The open documents after `didClose`.
pub open spec fn closed_documents(docs: Seq<(Seq<char>, Seq<char>)>, params: Json) -> Seq<(Seq<char>, Seq<char>)> {
    match request_uri(params) {
        Some(u) => without_document(docs, u),
        None => docs,
    }
}

/// The open documents after a notification.
pub open spec fn handled_documents(docs: Seq<(Seq<char>, Seq<char>)>, method: Seq<char>, params: Json) -> Seq<
    (Seq<char>, Seq<char>),
> {
    if method == "textDocument/didOpen"@ {
        opened_documents(docs, params)
    } else if method == "textDocument/didChange"@ {
        changed_documents(docs, params)
    } else if method == "textDocument/didClose"@ {
        closed_documents(docs, params)
    } else {
        docs
    }
}

/// The state after handling `method`.
pub open spec fn handled_state(state: ServerState, method: Seq<char>, params: Json) -> ServerState {
    if method == "initialize"@ {
        ServerState { config: configured(state.config, params), ..state }
    } else if method == "initialized"@ || method == "shutdown"@ || method == "exit"@ {
        state
    } else {
        ServerState { documents: handled_documents(state.documents, method, params), ..state }
    }
}

/// `initialize` takes the workspace root from `rootUri` (a URI) when it is a
/// string, else from `rootPath` (a path) when that is a string, else from the
/// `uri` of the first of `workspaceFolders`; with none of them it leaves the
/// root as it is. It always answers with the server's capabilities and keeps
/// the open documents and the root in the state until the caller sets it.
pub proof fn law_initialize_root(state: ServerState, params: Json)
    ensures
        params.field("rootUri"@) matches Some(Json::Str(u)) ==> handle_step(state, "initialize"@, params)
            == (StepView::SetRoot { path: path_of_uri(u@), reply: ReplyView::Initialized }),
        !(params.field("rootUri"@) matches Some(Json::Str(_))) ==> (params.field("rootPath"@) matches Some(
            Json::Str(p),
        ) ==> handle_step(state, "initialize"@, params) == (StepView::SetRoot {
            path: p@,
            reply: ReplyView::Initialized,
        })),
        !(params.field("rootUri"@) matches Some(Json::Str(_))) && !(params.field("rootPath"@) matches Some(
            Json::Str(_),
        )) ==> (params.field("workspaceFolders"@) matches Some(Json::Array(folders)) ==> (folders@.len() > 0 ==> (
        folders@[0].field("uri"@) matches Some(Json::Str(u)) ==> handle_step(state, "initialize"@, params) == (
        StepView::SetRoot { path: path_of_uri(u@), reply: ReplyView::Initialized })))),
        !(params.field("rootUri"@) matches Some(Json::Str(_))) && !(params.field("rootPath"@) matches Some(
            Json::Str(_),
        )) && !(params.field("workspaceFolders"@) matches Some(Json::Array(folders)) && folders@.len() > 0
            && folders@[0].field("uri"@) matches Some(Json::Str(_))) ==> handle_step(
            state,
            "initialize"@,
            params,
        ) == StepView::Reply(ReplyView::Initialized),
        handled_state(state, "initialize"@, params).documents == state.documents,
        handled_state(state, "initialize"@, params).root == state.root,
{
}

proof fn lemma_texts_of(items: Seq<Json>)
    ensures
        texts_of(items) == items.filter(|j: Json| j is Str).map_values(|j: Json| j->Str_0@),
    decreases items.len(),
{
    let is_text = |j: Json| j is Str;
    let text = |j: Json| j->Str_0@;
    if items.len() > 0 {
        let init = items.drop_last();
        lemma_texts_of(init);
        assert(items =~= init.push(items.last()));
        init.lemma_filter_push(items.last(), is_text);
        if items.last() is Str {
            assert(init.filter(is_text).push(items.last()).map_values(text) =~= init.filter(is_text).map_values(text).push(
                text(items.last()),
            ));
            assert(texts_of(items) =~= texts_of(init).push(items.last()->Str_0@));
        } else {
            assert(texts_of(items) =~= texts_of(init));
        }
    } else {
        assert(items.filter(is_text) =~= Seq::<Json>::empty());
        assert(items.filter(is_text).map_values(text) =~= Seq::<Seq<char>>::empty());
    }
}

/// `initialize` reads its options from `initializationOptions` when that is an
/// object: a number `maxResults` sets the result limit (at least 1), a boolean
/// `caseSensitive` sets case sensitivity, and an array of file patterns to
/// search or to leave out (`exclude`) sets those patterns to its strings, in
/// order, other items dropped; each option that is missing or of another kind
/// leaves its setting as it was, and without an options object nothing changes.
pub proof fn law_initialize_options(state: ServerState, params: Json)
    ensures
        !(params.field("initializationOptions"@) matches Some(Json::Object(_))) ==> handled_state(
            state,
            "initialize"@,
            params,
        ).config == state.config,
        params.field("initializationOptions"@) matches Some(Json::Object(_)) ==> {
            let o = params.field("initializationOptions"@)->0;
            let c = handled_state(state, "initialize"@, params).config;
            &&& o.field("maxResults"@) matches Some(Json::Number(Some(m))) ==> c.max_results == (if m == 0 {
                1u64
            } else {
                m
            }) as usize
            &&& !(o.field("maxResults"@) matches Some(Json::Number(Some(_)))) ==> c.max_results
                == state.config.max_results
            &&& o.field("caseSensitive"@) matches Some(Json::Bool(b)) ==> c.case_sensitive == b
            &&& !(o.field("caseSensitive"@) matches Some(Json::Bool(_))) ==> c.case_sensitive
                == state.config.case_sensitive
            &&& o.field(patterns_key()) matches Some(Json::Array(items)) ==> c.include_patterns == items@.filter(
                |j: Json| j is Str,
            ).map_values(|j: Json| j->Str_0@)
            &&& !(o.field(patterns_key()) matches Some(Json::Array(_))) ==> c.include_patterns
                == state.config.include_patterns
            &&& o.field("exclude"@) matches Some(Json::Array(items)) ==> c.exclude_patterns == items@.filter(
                |j: Json| j is Str,
            ).map_values(|j: Json| j->Str_0@)
            &&& !(o.field("exclude"@) matches Some(Json::Array(_))) ==> c.exclude_patterns
                == state.config.exclude_patterns
        },
{
    if params.field("initializationOptions"@) matches Some(Json::Object(_)) {
        let o = params.field("initializationOptions"@)->0;
        match o.field(patterns_key()) {
            Some(Json::Array(items)) => lemma_texts_of(items@),
            _ => {},
        }
        match o.field("exclude"@) {
            Some(Json::Array(items)) => lemma_texts_of(items@),
            _ => {},
        }
    }
}

/// The step that handling `method` asks for.
pub open spec fn handle_step(state: ServerState, method: Seq<char>, params: Json) -> StepView {
    if method == "initialize"@ {
        match initialize_root(params) {
            Some(p) => StepView::SetRoot { path: p, reply: ReplyView::Initialized },
            None => StepView::Reply(ReplyView::Initialized),
        }
    } else if method == "initialized"@ || method == "shutdown"@ || method == "exit"@ {
        StepView::Reply(ReplyView::Null)
    } else if method == "textDocument/didOpen"@ || method == "textDocument/didChange"@ || method
        == "textDocument/didClose"@ {
        StepView::Reply(ReplyView::Null)
    } else if method == "textDocument/definition"@ {
        lookup_step(RequestKindView::Definition, params, state)
    } else if method == "textDocument/references"@ {
        lookup_step(
            RequestKindView::References {
                include_declaration: match member(member(params, "context"@), "includeDeclaration"@).boolean() {
                    Some(b) => b,
                    None => false,
                },
            },
            params,
            state,
        )
    } else {
        StepView::Reply(ReplyView::Null)
    }
}

// ---------------------------------------------------------------------------
// Finishing requests
// ---------------------------------------------------------------------------

/// `occ` is what a search for `symbol` yields: nothing for an empty symbol,
/// otherwise the merged result of the file matches and the open documents'
/// matches, `paths` holding the canonical paths listed by `Step::Search`.
pub open spec fn search_result(
    occ: Seq<OccurrenceView>,
    disk: Seq<OccurrenceView>,
    docs: Seq<(Seq<char>, Seq<char>)>,
    paths: Seq<Seq<char>>,
    symbol: Seq<char>,
    case_sensitive: bool,
    max: usize,
) -> bool {
    if symbol.len() == 0 {
        occ.len() == 0
    } else {
        is_merged_result(
            occ,
            search_candidates(disk, docs, paths.drop_first(), symbol, case_sensitive),
            max as nat,
        )
    }
}

/// Some occurrence in the current document reads as a definition.
pub open spec fn has_local_definition(occ: Seq<OccurrenceView>, symbol: Seq<char>, current: Seq<char>) -> bool {
    exists|i: int| 0 <= i < occ.len() && occ[i].path == current && score_of(#[trigger] occ[i], symbol) > 0
}

/// After the first search of a definition request: when matching is case
/// sensitive and nothing in the current document reads as a definition, search
/// again ignoring case; otherwise answer with the ranked definitions.
pub open spec fn after_definition_search(
    occ: Seq<OccurrenceView>,
    uri: Seq<char>,
    symbol: Seq<char>,
    current: Seq<char>,
    state: ServerState,
) -> StepView {
    let definitions = rank_spec(occ, symbol, Some(current));
    if state.config.case_sensitive && !has_local_definition(occ, symbol, current) {
        StepView::Search {
            symbol,
            case_sensitive: false,
            paths: search_paths_spec(uri, state.documents),
            pending: PendingView::Broader { uri, symbol, first: definitions },
        }
    } else {
        StepView::Reply(ReplyView::Locations(definitions))
    }
}

/// The occurrences that are not at the place of a definition.
pub open spec fn without_definitions(occ: Seq<OccurrenceView>, symbol: Seq<char>) -> Seq<OccurrenceView> {
    occ.filter(
        |o: OccurrenceView|
            !(exists|d: OccurrenceView| occ.contains(d) && score_of(d, symbol) > 0 && crate::search::same_key(d, o)),
    )
}

/// The outcome suits the pending request.
pub open spec fn outcome_fits(pending: PendingView, outcome: OutcomeView, documents: nat) -> bool {
    match pending {
        PendingView::NeedText { .. } => outcome is FileText,
        _ => match outcome {
            OutcomeView::Found { disk, paths } => paths.len() == documents + 1,
            _ => false,
        },
    }
}

/// A definition request after its first search yields `r`.
pub open spec fn definition_resumed(
    state: ServerState,
    uri: Seq<char>,
    symbol: Seq<char>,
    disk: Seq<OccurrenceView>,
    paths: Seq<Seq<char>>,
    r: StepView,
) -> bool {
    exists|occ: Seq<OccurrenceView>|
        #[trigger] search_result(
            occ,
            disk,
            state.documents,
            paths,
            symbol,
            state.config.case_sensitive,
            state.config.max_results,
        ) && r == after_definition_search(occ, uri, symbol, paths[0], state)
}

/// A definition request after its case-insensitive search yields `r`.
pub open spec fn broader_resumed(
    state: ServerState,
    symbol: Seq<char>,
    first: Seq<OccurrenceView>,
    disk: Seq<OccurrenceView>,
    paths: Seq<Seq<char>>,
    r: StepView,
) -> bool {
    exists|occ: Seq<OccurrenceView>|
        #[trigger] search_result(occ, disk, state.documents, paths, symbol, false, state.config.max_results)
            && r == StepView::Reply(
            ReplyView::Locations(
                if has_local_definition(occ, symbol, paths[0]) {
                    rank_spec(occ, symbol, Some(paths[0]))
                } else {
                    first
                },
            ),
        )
}

/// A references request after its search yields `r`.
pub open spec fn references_resumed(
    state: ServerState,
    symbol: Seq<char>,
    include_declaration: bool,
    disk: Seq<OccurrenceView>,
    paths: Seq<Seq<char>>,
    r: StepView,
) -> bool {
    exists|occ: Seq<OccurrenceView>|
        #[trigger] search_result(
            occ,
            disk,
            state.documents,
            paths,
            symbol,
            state.config.case_sensitive,
            state.config.max_results,
        ) && r == StepView::Reply(
            ReplyView::Locations(
                if include_declaration {
                    occ
                } else {
                    without_definitions(occ, symbol)
                },
            ),
        )
}

/// The step after the caller's work for a pending request.
pub open spec fn resumed(state: ServerState, pending: PendingView, outcome: OutcomeView, r: StepView) -> bool {
    match pending {
        PendingView::NeedText { kind, uri, line, character } => match outcome {
            OutcomeView::FileText(None) => r == StepView::Reply(ReplyView::Locations(Seq::empty())),
            OutcomeView::FileText(Some(text)) => r == symbol_step(
                kind,
                uri,
                symbol_at_spec(text, line, character),
                state,
            ),
            _ => false,
        },
        PendingView::Definition { uri, symbol } => match outcome {
            OutcomeView::Found { disk, paths } => definition_resumed(state, uri, symbol, disk, paths, r),
            _ => false,
        },
        PendingView::Broader { uri, symbol, first } => match outcome {
            OutcomeView::Found { disk, paths } => broader_resumed(state, symbol, first, disk, paths, r),
            _ => false,
        },
        PendingView::References { symbol, include_declaration } => match outcome {
            OutcomeView::Found { disk, paths } => references_resumed(
                state,
                symbol,
                include_declaration,
                disk,
                paths,
                r,
            ),
            _ => false,
        },
    }
}

// ---------------------------------------------------------------------------
// Handling requests
// ---------------------------------------------------------------------------

/// `j[key]` as text.
fn member_text<'a>(j: &'a Json, key: &str) -> (r: Option<&'a str>)
    ensures
        match r {
            Some(t) => member(*j, key@).text() == Some(t@),
            None => member(*j, key@).text() is None,
        },
{
    match j.get(key) {
        Some(v) => v.as_str(),
        None => None,
    }
}

/// `j[outer][inner]` as text.
fn text_at<'a>(j: &'a Json, outer: &str, inner: &str) -> (r: Option<&'a str>)
    ensures
        match r {
            Some(t) => member(member(*j, outer@), inner@).text() == Some(t@),
            None => member(member(*j, outer@), inner@).text() is None,
        },
{
    match j.get(outer) {
        Some(v) => member_text(v, inner),
        None => None,
    }
}

/// `j[outer]` read as a position number for `key`.
fn number_in(j: &Json, outer: &str, key: &str) -> (r: u64)
    ensures
        r == position_number(member(*j, outer@), key@),
{
    match j.get(outer) {
        Some(p) => match p.get(key) {
            Some(v) => match v.as_u64() {
                Some(n) => n,
                None => 0,
            },
            None => 0,
        },
        None => 0,
    }
}

/// `j[key]` as an array.
fn items_at<'a>(j: &'a Json, key: &str) -> (r: Option<&'a Vec<Json>>)
    ensures
        match r {
            Some(v) => json_items(member(*j, key@)) == Some(v@),
            None => json_items(member(*j, key@)) is None,
        },
{
    match j.get(key) {
        Some(v) => match v {
            Json::Array(items) => Some(items),
            _ => None,
        },
        None => None,
    }
}

/// The strings among `items`, in order.
fn texts_from(items: &Vec<Json>) -> (r: Vec<String>)
    ensures
        string_views(r@) == texts_of(items@),
{
    let mut r: Vec<String> = Vec::new();
    let mut i: usize = 0;
    assert(items@.take(0) =~= Seq::<Json>::empty());
    assert(string_views(r@) =~= Seq::<Seq<char>>::empty());
    while i < items.len()
        invariant
            i <= items@.len(),
            string_views(r@) == texts_of(items@.take(i as int)),
        decreases items@.len() - i,
    {
        let ghost before = string_views(r@);
        assert(items@.take(i + 1).drop_last() =~= items@.take(i as int));
        match items[i].as_str() {
            Some(t) => {
                r.push(t.to_owned());
                assert(string_views(r@) =~= before + seq![t@]);
            },
            None => {
                assert(before + Seq::<Seq<char>>::empty() =~= before);
            },
        }
        i += 1;
    }
    assert(items@.take(items@.len() as int) =~= items@);
    r
}

/// A copy of a list of strings.
fn copy_strings(v: &Vec<String>) -> (r: Vec<String>)
    ensures
        string_views(r@) == string_views(v@),
{
    let mut r: Vec<String> = Vec::new();
    let mut i: usize = 0;
    while i < v.len()
        invariant
            i <= v@.len(),
            string_views(r@) == string_views(v@).take(i as int),
        decreases v@.len() - i,
    {
        let ghost before = r@;
        let c = v[i].clone();
        let ghost cv = c@;
        r.push(c);
        assert(string_views(r@) =~= string_views(before).push(cv));
        assert(string_views(v@).take(i + 1) =~= string_views(v@).take(i as int).push(v@[i as int]@));
        i += 1;
    }
    assert(string_views(v@).take(v@.len() as int) =~= string_views(v@));
    r
}

proof fn lemma_definition_place(occ: Seq<OccurrenceView>, symbol: Seq<char>, i: int)
    requires
        crate::search::sorted_by_key(occ),
        0 <= i < occ.len(),
    ensures
        (exists|d: OccurrenceView| occ.contains(d) && score_of(d, symbol) > 0 && crate::search::same_key(d, occ[i]))
            <==> score_of(occ[i], symbol) > 0,
{
    if exists|d: OccurrenceView| occ.contains(d) && score_of(d, symbol) > 0 && crate::search::same_key(d, occ[i]) {
        let d = choose|d: OccurrenceView| occ.contains(d) && score_of(d, symbol) > 0 && crate::search::same_key(d, occ[i]);
        let j = choose|j: int| 0 <= j < occ.len() && occ[j] == d;
        if j < i {
            assert(crate::search::key_less(occ[j], occ[i]));
            crate::search::lemma_key_order(occ[j], occ[i], occ[i]);
        } else if j > i {
            assert(crate::search::key_less(occ[i], occ[j]));
            crate::search::lemma_key_order(occ[i], occ[j], occ[j]);
        }
    } else {
        if score_of(occ[i], symbol) > 0 {
            assert(occ.contains(occ[i]));
            assert(crate::search::same_key(occ[i], occ[i]));
        }
    }
}

proof fn lemma_filter_agree(s: Seq<OccurrenceView>, p: spec_fn(OccurrenceView) -> bool, q: spec_fn(OccurrenceView) -> bool)
    requires
        forall|i: int| 0 <= i < s.len() ==> p(#[trigger] s[i]) == q(s[i]),
    ensures
        s.filter(p) == s.filter(q),
    decreases s.len(),
{
    reveal(Seq::filter);
    if s.len() > 0 {
        let rest = s.drop_last();
        assert forall|i: int| 0 <= i < rest.len() implies p(#[trigger] rest[i]) == q(rest[i]) by {
            assert(rest[i] == s[i]);
        }
        lemma_filter_agree(rest, p, q);
        assert(p(s[s.len() - 1]) == q(s[s.len() - 1]));
    }
}

/// By default a references request leaves out declarations: when the search
/// lists each place once (as its result does), what remains is exactly the
/// occurrences that do not read as definitions.
pub proof fn law_references_exclude_definitions(occ: Seq<OccurrenceView>, symbol: Seq<char>)
    requires
        crate::search::sorted_by_key(occ),
    ensures
        without_definitions(occ, symbol) == occ.filter(|o: OccurrenceView| score_of(o, symbol) == 0),
        forall|i: int|
            0 <= i < without_definitions(occ, symbol).len() ==> score_of(
                #[trigger] without_definitions(occ, symbol)[i],
                symbol,
            ) == 0,
{
    let p = |o: OccurrenceView|
        !(exists|d: OccurrenceView| occ.contains(d) && score_of(d, symbol) > 0 && crate::search::same_key(d, o));
    let q = |o: OccurrenceView| score_of(o, symbol) == 0;
    assert forall|i: int| 0 <= i < occ.len() implies p(#[trigger] occ[i]) == q(occ[i]) by {
        lemma_definition_place(occ, symbol, i);
    }
    lemma_filter_agree(occ, p, q);
    assert forall|i: int| 0 <= i < occ.filter(q).len() implies score_of(#[trigger] occ.filter(q)[i], symbol) == 0 by {
        occ.lemma_filter_pred(q, i);
    }
}

/// The occurrences that are not at the place of a definition.
fn non_definitions(occ: &Vec<Occurrence>, symbol: &str) -> (r: Vec<Occurrence>)
    requires
        crate::search::sorted_by_key(occurrence_views(occ@)),
    ensures
        occurrence_views(r@) == without_definitions(occurrence_views(occ@), symbol@),
{
    let ghost ov = occurrence_views(occ@);
    let ghost pred = |o: OccurrenceView|
        !(exists|d: OccurrenceView| ov.contains(d) && score_of(d, symbol@) > 0 && crate::search::same_key(d, o));
    let mut r: Vec<Occurrence> = Vec::new();
    let mut i: usize = 0;
    proof {
        reveal(Seq::filter);
    }
    assert(ov.take(0).filter(pred) =~= occurrence_views(r@));
    while i < occ.len()
        invariant
            i <= occ@.len(),
            ov == occurrence_views(occ@),
            crate::search::sorted_by_key(ov),
            pred == (|o: OccurrenceView|
                !(exists|d: OccurrenceView| ov.contains(d) && score_of(d, symbol@) > 0 && crate::search::same_key(d, o))),
            occurrence_views(r@) == ov.take(i as int).filter(pred),
        decreases occ@.len() - i,
    {
        let ghost before = occurrence_views(r@);
        proof {
            assert(ov.take(i + 1) =~= ov.take(i as int).push(ov[i as int]));
            ov.take(i as int).lemma_filter_push(ov[i as int], pred);
            lemma_definition_place(ov, symbol@, i as int);
        }
        if !is_definition(&occ[i], symbol) {
            r.push(occ[i].duplicate());
            assert(occurrence_views(r@) =~= before.push(ov[i as int]));
        }
        i += 1;
    }
    assert(ov.take(occ@.len() as int) =~= ov);
    r
}

/// Whether some occurrence in the document at `current` reads as a definition.
fn local_definition(occ: &Vec<Occurrence>, symbol: &str, current: &str) -> (r: bool)
    ensures
        r == has_local_definition(occurrence_views(occ@), symbol@, current@),
{
    let ghost ov = occurrence_views(occ@);
    let mut i: usize = 0;
    while i < occ.len()
        invariant
            i <= occ@.len(),
            ov == occurrence_views(occ@),
            forall|k: int| 0 <= k < i ==> !(ov[k].path == current@ && score_of(ov[k], symbol@) > 0),
        decreases occ@.len() - i,
    {
        if same_document(&occ[i], current) && is_definition(&occ[i], symbol) {
            assert(ov[i as int] == occ@[i as int]@);
            return true;
        }
        i += 1;
    }
    false
}

/// `current` after each of `changes`, in order.
fn apply_all(current: Vec<char>, changes: &Vec<Json>) -> (r: Vec<char>)
    ensures
        r@ == apply_changes(current@, changes@),
{
    let ghost start = current@;
    let mut current = current;
    let mut k: usize = 0;
    assert(changes@.take(0) =~= Seq::<Json>::empty());
    while k < changes.len()
        invariant
            k <= changes@.len(),
            current@ == apply_changes(start, changes@.take(k as int)),
        decreases changes@.len() - k,
    {
        assert(changes@.take(k + 1).drop_last() =~= changes@.take(k as int));
        let change = &changes[k];
        if change.get("range").is_none() {
            current = text_member(change);
        } else {
            current = apply_change_chars(current.as_slice(), change);
        }
        k += 1;
    }
    assert(changes@.take(changes@.len() as int) =~= changes@);
    current
}

impl LspServer {
    /// The paths a search needs in canonical form (see `search_paths_spec`).
    fn search_paths(&self, uri: &str) -> (r: Vec<String>)
        ensures
            string_views(r@) == search_paths_spec(uri@, self.state().documents),
    {
        let mut r: Vec<String> = Vec::new();
        r.push(path_from_uri(uri));
        let ghost dv = document_views(self.documents@);
        let mut i: usize = 0;
        assert(string_views(r@) =~= seq![path_of_uri(uri@)] + dv.take(0).map_values(
            |d: (Seq<char>, Seq<char>)| path_of_uri(d.0),
        ));
        while i < self.documents.len()
            invariant
                i <= self.documents@.len(),
                dv == document_views(self.documents@),
                string_views(r@) == seq![path_of_uri(uri@)] + dv.take(i as int).map_values(
                    |d: (Seq<char>, Seq<char>)| path_of_uri(d.0),
                ),
            decreases self.documents@.len() - i,
        {
            let ghost before = r@;
            let p = path_from_uri(self.documents[i].uri.as_str());
            let ghost pv = p@;
            r.push(p);
            assert(dv[i as int] == document_view(self.documents@[i as int]));
            assert(string_views(r@) =~= string_views(before).push(pv));
            assert(dv.take(i + 1).map_values(|d: (Seq<char>, Seq<char>)| path_of_uri(d.0)) =~= dv.take(
                i as int,
            ).map_values(|d: (Seq<char>, Seq<char>)| path_of_uri(d.0)).push(path_of_uri(dv[i as int].0)));
            assert(string_views(r@) =~= seq![path_of_uri(uri@)] + dv.take(i + 1).map_values(
                |d: (Seq<char>, Seq<char>)| path_of_uri(d.0),
            ));
            i += 1;
        }
        assert(dv.take(self.documents@.len() as int) =~= dv);
        r
    }

    /// The step once the symbol under the cursor is known (see `symbol_step`).
    fn symbol_step_for(&self, kind: RequestKind, uri: String, symbol: Option<String>) -> (r: Step)
        ensures
            r@ == symbol_step(
                kind@,
                uri@,
                match symbol {
                    Some(s) => Some(s@),
                    None => None,
                },
                self.state(),
            ),
    {
        match symbol {
            None => {
                let empty: Vec<Occurrence> = Vec::new();
                assert(occurrence_views(empty@) =~= Seq::<OccurrenceView>::empty());
                Step::Reply(Reply::Locations(empty))
            },
            Some(s) => {
                let paths = self.search_paths(uri.as_str());
                let pending = match kind {
                    RequestKind::Definition => Pending::Definition { uri, symbol: s.clone() },
                    RequestKind::References { include_declaration } => Pending::References {
                        symbol: s.clone(),
                        include_declaration,
                    },
                };
                Step::Search {
                    symbol: s,
                    case_sensitive: self.config.case_sensitive,
                    paths,
                    pending,
                }
            },
        }
    }

    /// The first step of a definition or references request (see `lookup_step`).
    fn lookup(&self, kind: RequestKind, params: &Json) -> (r: Step)
        ensures
            r@ == lookup_step(kind@, *params, self.state()),
    {
        let uri = match text_at(params, "textDocument", "uri") {
            Some(u) => u,
            None => {
                let empty: Vec<Occurrence> = Vec::new();
                assert(occurrence_views(empty@) =~= Seq::<OccurrenceView>::empty());
                return Step::Reply(Reply::Locations(empty));
            },
        };
        let line = number_in(params, "position", "line");
        let character = number_in(params, "position", "character");
        match self.find_document(uri) {
            Some(i) => {
                let symbol = symbol_at(self.documents[i].text.as_str(), line, character);
                self.symbol_step_for(kind, uri.to_owned(), symbol)
            },
            None => Step::ReadFile {
                path: path_from_uri(uri),
                pending: Pending::NeedText { kind, uri: uri.to_owned(), line, character },
            },
        }
    }

    /// Applies the options of `initialize` (see `configured`).
    fn apply_options(&mut self, params: &Json)
        ensures
            final(self).state() == (ServerState {
                config: configured(old(self).state().config, *params),
                ..old(self).state()
            }),
    {
        proof {
            use_type_invariant(&*self);
        }
        let options = match params.get("initializationOptions") {
            Some(o) => o,
            None => return ,
        };
        match options {
            Json::Object(_) => {},
            _ => return ,
        }
        let max_results = match options.get("maxResults") {
            Some(v) => v.as_u64(),
            None => None,
        };
        if let Some(m) = max_results {
            let m: u64 = if m >= 1 {
                m
            } else {
                1
            };
            self.config.max_results = m as usize;
        }
        let case_sensitive = match options.get("caseSensitive") {
            Some(v) => v.as_bool(),
            None => None,
        };
        if let Some(b) = case_sensitive {
            self.config.case_sensitive = b;
        }
        let key = string_from_chars(['i', 'n', 'c', 'l', 'u', 'd', 'e'].as_slice());
        assert(key@ =~= patterns_key());
        if let Some(items) = items_at(options, key.as_str()) {
            self.config.include_patterns = texts_from(items);
        }
        if let Some(items) = items_at(options, "exclude") {
            self.config.exclude_patterns = texts_from(items);
        }
    }

    /// `initialize`: applies the options and names the new root.
    fn initialize(&mut self, params: &Json) -> (r: Step)
        ensures
            r@ == handle_step(old(self).state(), "initialize"@, *params),
            final(self).state() == handled_state(old(self).state(), "initialize"@, *params),
    {
        proof {
            use_type_invariant(&*self);
        }
        let root = match member_text(params, "rootUri") {
            Some(u) => Some(path_from_uri(u)),
            None => match member_text(params, "rootPath") {
                Some(p) => Some(p.to_owned()),
                None => {
                    let folder = match params.get("workspaceFolders") {
                        Some(f) => f.at(0),
                        None => None,
                    };
                    match folder {
                        Some(f) => match member_text(f, "uri") {
                            Some(u) => Some(path_from_uri(u)),
                            None => None,
                        },
                        None => None,
                    }
                },
            },
        };
        proof {
            let f = match member(*params, "workspaceFolders"@).element(0) {
                Some(f) => f,
                None => Json::Null,
            };
            assert(member(Json::Null, "uri"@).text() is None);
        }
        self.apply_options(params);
        match root {
            Some(path) => Step::SetRoot { path, reply: Reply::Initialized },
            None => Step::Reply(Reply::Initialized),
        }
    }

    /// `textDocument/didOpen`: records the document's text.
    fn did_open(&mut self, params: &Json)
        ensures
            final(self).state() == (ServerState {
                documents: opened_documents(old(self).state().documents, *params),
                ..old(self).state()
            }),
    {
        let document = params.get("textDocument");
        let (uri, text) = match document {
            Some(d) => (member_text(d, "uri"), member_text(d, "text")),
            None => (None, None),
        };
        proof {
            assert(member(Json::Null, "uri"@).text() is None);
        }
        if let (Some(u), Some(t)) = (uri, text) {
            self.put_document(u.to_owned(), t.to_owned());
        }
    }

    /// `textDocument/didChange`: applies the changes, in order, to the
    /// document's text.
    fn did_change(&mut self, params: &Json)
        ensures
            final(self).state() == (ServerState {
                documents: changed_documents(old(self).state().documents, *params),
                ..old(self).state()
            }),
    {
        let uri = match text_at(params, "textDocument", "uri") {
            Some(u) => u,
            None => return ,
        };
        let mut current: Vec<char> = match self.find_document(uri) {
            Some(i) => chars_of(self.documents[i].text.as_str()),
            None => Vec::new(),
        };
        if let Some(changes) = items_at(params, "contentChanges") {
            current = apply_all(current, changes);
        }
        let text = string_from_chars(current.as_slice());
        self.put_document(uri.to_owned(), text);
    }

    /// `textDocument/didClose`: forgets the document.
    fn did_close(&mut self, params: &Json)
        ensures
            final(self).state() == (ServerState {
                documents: closed_documents(old(self).state().documents, *params),
                ..old(self).state()
            }),
    {
        if let Some(uri) = text_at(params, "textDocument", "uri") {
            self.remove_document(uri);
        }
    }

    /// Handles a request or notification: updates the state (see
    /// `handled_state`) and says what the caller does next (see `handle_step`).
    pub fn handle(&mut self, method: &str, params: &Json) -> (r: Step)
        ensures
            r@ == handle_step(old(self).state(), method@, *params),
            final(self).state() == handled_state(old(self).state(), method@, *params),
    {
        if str_equals(method, "initialize") {
            return self.initialize(params);
        }
        if str_equals(method, "initialized") || str_equals(method, "shutdown") || str_equals(method, "exit") {
            return Step::Reply(Reply::Null);
        }
        if str_equals(method, "textDocument/didOpen") {
            self.did_open(params);
            return Step::Reply(Reply::Null);
        }
        if str_equals(method, "textDocument/didChange") {
            self.did_change(params);
            return Step::Reply(Reply::Null);
        }
        if str_equals(method, "textDocument/didClose") {
            self.did_close(params);
            return Step::Reply(Reply::Null);
        }
        if str_equals(method, "textDocument/definition") {
            return self.lookup(RequestKind::Definition, params);
        }
        if str_equals(method, "textDocument/references") {
            let include_declaration = match params.get("context") {
                Some(c) => match c.get("includeDeclaration") {
                    Some(v) => match v.as_bool() {
                        Some(b) => b,
                        None => false,
                    },
                    None => false,
                },
                None => false,
            };
            return self.lookup(RequestKind::References { include_declaration }, params);
        }
        Step::Reply(Reply::Null)
    }

    /// Searches for `symbol` (see `search_result`); `paths` are the canonical
    /// paths listed by `Step::Search`.
    fn run_search(&self, symbol: &str, case_sensitive: bool, disk: &Vec<Occurrence>, paths: &Vec<String>) -> (r: Vec<
        Occurrence,
    >)
        requires
            paths@.len() == self.state().documents.len() + 1,
        ensures
            search_result(
                occurrence_views(r@),
                occurrence_views(disk@),
                self.state().documents,
                string_views(paths@),
                symbol@,
                case_sensitive,
                self.state().config.max_results,
            ),
    {
        let mut document_paths: Vec<String> = Vec::new();
        let mut i: usize = 1;
        while i < paths.len()
            invariant
                1 <= i <= paths@.len(),
                string_views(document_paths@) == string_views(paths@).subrange(1, i as int),
            decreases paths@.len() - i,
        {
            let ghost before = document_paths@;
            document_paths.push(paths[i].clone());
            assert(string_views(document_paths@) =~= string_views(before).push(paths@[i as int]@));
            assert(string_views(paths@).subrange(1, i + 1) =~= string_views(paths@).subrange(1, i as int).push(
                paths@[i as int]@,
            ));
            i += 1;
        }
        assert(string_views(paths@).subrange(1, paths@.len() as int) =~= string_views(paths@).drop_first());
        let searcher = WorkspaceSearcher {
            root: self.root.clone(),
            config: ServerConfig {
                max_results: self.config.max_results,
                case_sensitive,
                include_patterns: copy_strings(&self.config.include_patterns),
                exclude_patterns: copy_strings(&self.config.exclude_patterns),
            },
        };
        let r = searcher.search(symbol, disk, self.documents.as_slice(), document_paths.as_slice());
        r
    }

    /// Continues a request that waited for a file's text.
    fn resume_with_text(&self, kind: RequestKind, uri: String, line: u64, character: u64, text: Option<String>) -> (r: Step)
        ensures
            resumed(
                self.state(),
                PendingView::NeedText { kind: kind@, uri: uri@, line, character },
                OutcomeView::FileText(
                    match text {
                        Some(t) => Some(t@),
                        None => None,
                    },
                ),
                r@,
            ),
    {
        match text {
            None => {
                let empty: Vec<Occurrence> = Vec::new();
                assert(occurrence_views(empty@) =~= Seq::<OccurrenceView>::empty());
                Step::Reply(Reply::Locations(empty))
            },
            Some(t) => {
                let symbol = symbol_at(t.as_str(), line, character);
                self.symbol_step_for(kind, uri, symbol)
            },
        }
    }

    /// Continues a definition request after its first search.
    fn resume_definition(&self, uri: String, symbol: String, disk: Vec<Occurrence>, paths: Vec<String>) -> (r: Step)
        requires
            paths@.len() == self.state().documents.len() + 1,
        ensures
            definition_resumed(self.state(), uri@, symbol@, occurrence_views(disk@), string_views(paths@), r@),
    {
        let ghost uri_v = uri@;
        let ghost symbol_v = symbol@;
        let occ = self.run_search(symbol.as_str(), self.config.case_sensitive, &disk, &paths);
        let ghost ov = occurrence_views(occ@);
        let ghost current = string_views(paths@)[0];
        assert(current == paths@[0]@);
        let definitions = rank_definitions(&occ, symbol.as_str(), Some(paths[0].as_str()));
        let r = if self.config.case_sensitive && !local_definition(&occ, symbol.as_str(), paths[0].as_str()) {
            let search_paths = self.search_paths(uri.as_str());
            Step::Search {
                symbol: symbol.clone(),
                case_sensitive: false,
                paths: search_paths,
                pending: Pending::Broader { uri, symbol, first: definitions },
            }
        } else {
            Step::Reply(Reply::Locations(definitions))
        };
        assert(r@ == after_definition_search(ov, uri_v, symbol_v, current, self.state()));
        assert(search_result(
            ov,
            occurrence_views(disk@),
            self.state().documents,
            string_views(paths@),
            symbol_v,
            self.state().config.case_sensitive,
            self.state().config.max_results,
        ));
        r
    }

    /// Continues a definition request after its case-insensitive search.
    fn resume_broader(
        &self,
        uri: String,
        symbol: String,
        first: Vec<Occurrence>,
        disk: Vec<Occurrence>,
        paths: Vec<String>,
    ) -> (r: Step)
        requires
            paths@.len() == self.state().documents.len() + 1,
        ensures
            broader_resumed(self.state(), symbol@, occurrence_views(first@), occurrence_views(disk@), string_views(paths@), r@),
    {
        let ghost first_v = occurrence_views(first@);
        let occ = self.run_search(symbol.as_str(), false, &disk, &paths);
        let ghost ov = occurrence_views(occ@);
        let ghost current = string_views(paths@)[0];
        assert(current == paths@[0]@);
        let r = if local_definition(&occ, symbol.as_str(), paths[0].as_str()) {
            Step::Reply(Reply::Locations(rank_definitions(&occ, symbol.as_str(), Some(paths[0].as_str()))))
        } else {
            Step::Reply(Reply::Locations(first))
        };
        assert(r@ == StepView::Reply(
            ReplyView::Locations(
                if has_local_definition(ov, symbol@, current) {
                    rank_spec(ov, symbol@, Some(current))
                } else {
                    first_v
                },
            ),
        ));
        assert(search_result(ov, occurrence_views(disk@), self.state().documents, string_views(paths@), symbol@, false, self.state().config.max_results));
        r
    }

    /// Continues a references request after its search.
    fn resume_references(
        &self,
        symbol: String,
        include_declaration: bool,
        disk: Vec<Occurrence>,
        paths: Vec<String>,
    ) -> (r: Step)
        requires
            paths@.len() == self.state().documents.len() + 1,
        ensures
            references_resumed(self.state(), symbol@, include_declaration, occurrence_views(disk@), string_views(paths@), r@),
    {
        let occ = self.run_search(symbol.as_str(), self.config.case_sensitive, &disk, &paths);
        let ghost ov = occurrence_views(occ@);
        let r = if include_declaration {
            Step::Reply(Reply::Locations(occ))
        } else {
            assert(crate::search::sorted_by_key(occurrence_views(occ@)));
            Step::Reply(Reply::Locations(non_definitions(&occ, symbol.as_str())))
        };
        assert(r@ == StepView::Reply(
            ReplyView::Locations(
                if include_declaration {
                    ov
                } else {
                    without_definitions(ov, symbol@)
                },
            ),
        ));
        assert(search_result(ov, occurrence_views(disk@), self.state().documents, string_views(paths@), symbol@, self.state().config.case_sensitive, self.state().config.max_results));
        r
    }

    /// Continues a pending request with what the caller found (see `resumed`).
    pub fn resume(&self, pending: Pending, outcome: Outcome) -> (r: Step)
        requires
            outcome_fits(pending@, outcome@, self.state().documents.len()),
        ensures
            resumed(self.state(), pending@, outcome@, r@),
    {
        match pending {
            Pending::NeedText { kind, uri, line, character } => match outcome {
                Outcome::FileText(text) => self.resume_with_text(kind, uri, line, character, text),
                Outcome::Found { .. } => Step::Reply(Reply::Null),
            },
            Pending::Definition { uri, symbol } => match outcome {
                Outcome::Found { disk, paths } => self.resume_definition(uri, symbol, disk, paths),
                _ => Step::Reply(Reply::Null),
            },
            Pending::Broader { uri, symbol, first } => match outcome {
                Outcome::Found { disk, paths } => self.resume_broader(uri, symbol, first, disk, paths),
                _ => Step::Reply(Reply::Null),
            },
            Pending::References { symbol, include_declaration } => match outcome {
                Outcome::Found { disk, paths } => self.resume_references(
                    symbol,
                    include_declaration,
                    disk,
                    paths,
                ),
                _ => Step::Reply(Reply::Null),
            },
        }
    }
}

// ---------------------------------------------------------------------------
// Replies as JSON
// ---------------------------------------------------------------------------

/// The server's name and version, as reported to clients.
pub open spec fn server_name() -> Seq<char> {
    "any-lsp"@
}

pub open spec fn server_version() -> Seq<char> {
    "0.1.0"@
}

/// Whether `j` is the answer to `initialize`: documents are synchronised whole
/// on open, close and change; definitions and references are provided; the
/// server names itself. Each object holds these members and no other.
pub open spec fn is_initialize_result(j: Json) -> bool {
    let capabilities = member(j, "capabilities"@);
    let sync = member(capabilities, "textDocumentSync"@);
    let info = member(j, "serverInfo"@);
    &&& j.member_count() == 2 && j.field("capabilities"@) is Some && j.field("serverInfo"@) is Some
    &&& capabilities.member_count() == 3
    &&& sync.member_count() == 2
    &&& info.member_count() == 2
    &&& sync.field("openClose"@) == Some(Json::Bool(true))
    &&& sync.field("change"@) == Some(Json::Number(Some(1)))
    &&& capabilities.field("definitionProvider"@) == Some(Json::Bool(true))
    &&& capabilities.field("referencesProvider"@) == Some(Json::Bool(true))
    &&& member(info, "name"@).text() == Some(server_name())
    &&& member(info, "version"@).text() == Some(server_version())
}

/// The JSON object with the three members `k1: v1`, `k2: v2` and `k3: v3`, and no other.
fn triple_object(k1: String, v1: Json, k2: String, v2: Json, k3: String, v3: Json) -> (r: Json)
    requires
        k1@ != k2@,
        k1@ != k3@,
        k2@ != k3@,
    ensures
        r.member_count() == 3,
        r.field(k1@) == Some(v1),
        r.field(k2@) == Some(v2),
        r.field(k3@) == Some(v3),
{
    let mut entries: Vec<(String, Json)> = Vec::new();
    entries.push((k1, v1));
    entries.push((k2, v2));
    entries.push((k3, v3));
    proof {
        reveal_with_fuel(crate::json::entry_value, 4);
        assert(entries@.drop_first().drop_first().drop_first().len() == 0);
    }
    Json::Object(entries)
}

/// The answer to `initialize`.
pub fn initialize_result() -> (r: Json)
    ensures
        is_initialize_result(r),
{
    proof {
        reveal_strlit("openClose");
        reveal_strlit("change");
        reveal_strlit("textDocumentSync");
        reveal_strlit("definitionProvider");
        reveal_strlit("referencesProvider");
        reveal_strlit("capabilities");
        reveal_strlit("serverInfo");
        reveal_strlit("name");
        reveal_strlit("version");
    }
    let open_close = "openClose".to_owned();
    let change = "change".to_owned();
    assert(open_close@.len() != change@.len());
    let sync = crate::search::pair_object(open_close, Json::Bool(true), change, Json::Number(Some(1)));
    let sync_key = "textDocumentSync".to_owned();
    let definition_key = "definitionProvider".to_owned();
    let references_key = "referencesProvider".to_owned();
    assert(sync_key@.len() != definition_key@.len());
    assert(sync_key@.len() != references_key@.len());
    assert(definition_key@[0] != references_key@[0]);
    let capabilities = triple_object(
        sync_key,
        sync,
        definition_key,
        Json::Bool(true),
        references_key,
        Json::Bool(true),
    );
    let name_key = "name".to_owned();
    let version_key = "version".to_owned();
    assert(name_key@.len() != version_key@.len());
    let info = crate::search::pair_object(
        name_key,
        Json::Str("any-lsp".to_owned()),
        version_key,
        Json::Str("0.1.0".to_owned()),
    );
    let capabilities_key = "capabilities".to_owned();
    let info_key = "serverInfo".to_owned();
    assert(capabilities_key@.len() != info_key@.len());
    crate::search::pair_object(capabilities_key, capabilities, info_key, info)
}

/// Whether `j` is the JSON array of the locations of `items`.
pub open spec fn is_locations_json(j: Json, items: Seq<OccurrenceView>) -> bool {
    &&& j is Array
    &&& j->Array_0@.len() == items.len()
    &&& forall|i: int| 0 <= i < items.len() ==> crate::search::is_location_of(#[trigger] j->Array_0@[i], items[i])
}

impl Reply {
    /// The reply as JSON: `null`, the answer to `initialize`, or an array of locations.
    pub fn to_json(&self) -> (r: Json)
        ensures
            match self@ {
                ReplyView::Null => r == Json::Null,
                ReplyView::Initialized => is_initialize_result(r),
                ReplyView::Locations(items) => is_locations_json(r, items),
            },
    {
        match self {
            Reply::Null => Json::Null,
            Reply::Initialized => initialize_result(),
            Reply::Locations(items) => {
                let mut out: Vec<Json> = Vec::new();
                let mut i: usize = 0;
                while i < items.len()
                    invariant
                        i <= items@.len(),
                        out@.len() == i,
                        forall|k: int| 0 <= k < i ==> crate::search::is_location_of(#[trigger] out@[k], items@[k]@),
                    decreases items@.len() - i,
                {
                    out.push(items[i].location());
                    i += 1;
                }
                proof {
                    assert forall|k: int| 0 <= k < items@.len() implies crate::search::is_location_of(
                        #[trigger] out@[k],
                        occurrence_views(items@)[k],
                    ) by {
                        assert(occurrence_views(items@)[k] == items@[k]@);
                    }
                }
                Json::Array(out)
            },
        }
    }
}

} // verus!
