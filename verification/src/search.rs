//! Whole-word matching of a symbol in text, occurrences, and the merged,
//! ordered result list of a workspace search.
use vstd::prelude::*;
use crate::json::Json;
use crate::position::{split_lines, split_lines_of, views};
use crate::text::{
    ascii_fold, chars_of, compare_chars, eq_ignore_ascii_case, is_alphanumeric, seq_less,
    string_from_chars, alphanumeric, utf16_len, utf8_len, utf8_width_of,
    lemma_seq_less_irreflexive, lemma_seq_less_total, lemma_seq_less_transitive,
    lemma_utf8_len_push, lemma_utf8_len_take_mono,
};
use crate::position::{utf16_prefix_length, utf8_prefix_length};

verus! {

/// An occurrence of a symbol: the document (`uri` and its canonical `path`), the
/// zero-based line, the UTF-16 columns where the match starts and ends, and the
/// text of the line.
pub struct Occurrence {
    pub uri: String,
    pub path: String,
    pub line: usize,
    pub start: usize,
    pub end: usize,
    pub line_text: String,
}

/// What an occurrence says, as mathematical values.
pub struct OccurrenceView {
    pub uri: Seq<char>,
    pub path: Seq<char>,
    pub line: nat,
    pub start: nat,
    pub end: nat,
    pub line_text: Seq<char>,
}

impl View for Occurrence {
    type V = OccurrenceView;

    open spec fn view(&self) -> OccurrenceView {
        OccurrenceView {
            uri: self.uri@,
            path: self.path@,
            line: self.line as nat,
            start: self.start as nat,
            end: self.end as nat,
            line_text: self.line_text@,
        }
    }
}

/// The views of a list of occurrences.
pub open spec fn occurrence_views(s: Seq<Occurrence>) -> Seq<OccurrenceView> {
    s.map_values(|o: Occurrence| o@)
}

impl Occurrence {
    /// A copy of this occurrence.
    pub fn duplicate(&self) -> (r: Occurrence)
        ensures
            r == *self,
    {
        Occurrence {
            uri: self.uri.clone(),
            path: self.path.clone(),
            line: self.line,
            start: self.start,
            end: self.end,
            line_text: self.line_text.clone(),
        }
    }

    /// The identity of an occurrence: document, line and columns.
    pub fn key(&self) -> (r: (String, usize, usize, usize))
        ensures
            r.0@ == self.uri@,
            r.1 == self.line,
            r.2 == self.start,
            r.3 == self.end,
    {
        (self.uri.clone(), self.line, self.start, self.end)
    }

    /// The LSP `Location` of this occurrence:
    /// `{"uri", "range": {"start": {"line", "character"}, "end": {"line", "character"}}}`.
    pub fn location(&self) -> (r: Json)
        ensures
            is_location_of(r, self@),
    {
        proof {
            reveal_strlit("line");
            reveal_strlit("character");
            reveal_strlit("start");
            reveal_strlit("end");
            reveal_strlit("uri");
            reveal_strlit("range");
        }
        let line_key = "line".to_owned();
        let character_key = "character".to_owned();
        assert(line_key@.len() != character_key@.len());
        let start = pair_object(
            line_key.clone(),
            Json::Number(Some(self.line as u64)),
            character_key.clone(),
            Json::Number(Some(self.start as u64)),
        );
        let end = pair_object(
            line_key,
            Json::Number(Some(self.line as u64)),
            character_key,
            Json::Number(Some(self.end as u64)),
        );
        let start_key = "start".to_owned();
        let end_key = "end".to_owned();
        assert(start_key@.len() != end_key@.len());
        let range = pair_object(start_key, start, end_key, end);
        let uri_key = "uri".to_owned();
        let range_key = "range".to_owned();
        assert(uri_key@.len() != range_key@.len());
        pair_object(uri_key, Json::Str(self.uri.clone()), range_key, range)
    }
}

/// The JSON object with the two members `k1: v1` and `k2: v2`, and no other.
pub fn pair_object(k1: String, v1: Json, k2: String, v2: Json) -> (r: Json)
    requires
        k1@ != k2@,
    ensures
        r.member_count() == 2,
        r.field(k1@) == Some(v1),
        r.field(k2@) == Some(v2),
{
    let mut entries: Vec<(String, Json)> = Vec::new();
    let ghost a = k1@;
    let ghost b = k2@;
    entries.push((k1, v1));
    entries.push((k2, v2));
    proof {
        reveal_with_fuel(crate::json::entry_value, 3);
        assert(entries@.drop_first().drop_first().len() == 0);
    }
    Json::Object(entries)
}

/// Whether `j` is the JSON `{"line": line, "character": character}`: these two
/// members and no other.
pub open spec fn is_position_json(j: Json, line: nat, character: nat) -> bool {
    &&& j.member_count() == 2
    &&& j.field("line"@) == Some(Json::Number(Some(line as u64)))
    &&& j.field("character"@) == Some(Json::Number(Some(character as u64)))
}

/// Whether `j` is the LSP location of `o`: `{"uri", "range": {"start", "end"}}`
/// with these members and no other.
pub open spec fn is_location_of(j: Json, o: OccurrenceView) -> bool {
    &&& j.member_count() == 2
    &&& j.field("uri"@) is Some && j.field("uri"@)->0.text() == Some(o.uri)
    &&& j.field("range"@) is Some
    &&& j.field("range"@)->0.member_count() == 2
    &&& j.field("range"@)->0.field("start"@) is Some
    &&& is_position_json(j.field("range"@)->0.field("start"@)->0, o.line, o.start)
    &&& j.field("range"@)->0.field("end"@) is Some
    &&& is_position_json(j.field("range"@)->0.field("end"@)->0, o.line, o.end)
}

/// Search settings.
pub struct ServerConfig {
    pub max_results: usize,
    pub case_sensitive: bool,
    pub include_patterns: Vec<String>,
    pub exclude_patterns: Vec<String>,
}

impl Default for ServerConfig {
    fn default() -> (r: Self)
        ensures
            r.max_results == 1000,
            r.case_sensitive,
            r.include_patterns@.len() == 0,
            r.exclude_patterns@.len() == 0,
    {
        ServerConfig {
            max_results: 1000,
            case_sensitive: true,
            include_patterns: Vec::new(),
            exclude_patterns: Vec::new(),
        }
    }
}

/// The globs that a file search applies, in order: `.git` left out, then each
/// pattern of files to search (`kept`), then each pattern of files to leave out
/// (`left_out`) negated with `!`.
pub open spec fn override_globs_spec(kept: Seq<Seq<char>>, left_out: Seq<Seq<char>>) -> Seq<Seq<char>> {
    seq!["!.git/**"@] + kept + left_out.map_values(|p: Seq<char>| seq!['!'] + p)
}

/// The globs that a file search under `config` applies (see `override_globs_spec`).
pub fn override_globs(config: &ServerConfig) -> (r: Vec<String>)
    ensures
        string_views(r@) == override_globs_spec(
            string_views(config.include_patterns@),
            string_views(config.exclude_patterns@),
        ),
{
    let ghost inc = string_views(config.include_patterns@);
    let ghost exc = string_views(config.exclude_patterns@);
    let mut r: Vec<String> = Vec::new();
    r.push("!.git/**".to_owned());
    let mut i: usize = 0;
    assert(string_views(r@) =~= seq!["!.git/**"@] + inc.take(0));
    while i < config.include_patterns.len()
        invariant
            i <= config.include_patterns@.len(),
            inc == string_views(config.include_patterns@),
            string_views(r@) == seq!["!.git/**"@] + inc.take(i as int),
        decreases config.include_patterns@.len() - i,
    {
        let ghost before = string_views(r@);
        let p = config.include_patterns[i].clone();
        r.push(p);
        assert(string_views(r@) =~= before.push(inc[i as int]));
        assert(inc.take(i + 1) =~= inc.take(i as int).push(inc[i as int]));
        i += 1;
    }
    assert(inc.take(inc.len() as int) =~= inc);
    let ghost negate = |p: Seq<char>| seq!['!'] + p;
    let mut j: usize = 0;
    assert(string_views(r@) =~= seq!["!.git/**"@] + inc + exc.take(0).map_values(negate));
    while j < config.exclude_patterns.len()
        invariant
            j <= config.exclude_patterns@.len(),
            inc == string_views(config.include_patterns@),
            exc == string_views(config.exclude_patterns@),
            negate == (|p: Seq<char>| seq!['!'] + p),
            string_views(r@) == seq!["!.git/**"@] + inc + exc.take(j as int).map_values(negate),
        decreases config.exclude_patterns@.len() - j,
    {
        let ghost before = string_views(r@);
        let pattern = chars_of(config.exclude_patterns[j].as_str());
        let mut negated: Vec<char> = Vec::new();
        negated.push('!');
        let mut k: usize = 0;
        while k < pattern.len()
            invariant
                k <= pattern@.len(),
                negated@ == seq!['!'] + pattern@.take(k as int),
            decreases pattern@.len() - k,
        {
            negated.push(pattern[k]);
            assert(pattern@.take(k + 1) =~= pattern@.take(k as int).push(pattern@[k as int]));
            assert(negated@ =~= seq!['!'] + pattern@.take(k + 1));
            k += 1;
        }
        assert(pattern@.take(pattern@.len() as int) =~= pattern@);
        assert(exc[j as int] == pattern@);
        r.push(string_from_chars(negated.as_slice()));
        assert(exc.take(j + 1) =~= exc.take(j as int).push(exc[j as int]));
        assert(exc.take(j + 1).map_values(negate) =~= exc.take(j as int).map_values(negate).push(negate(exc[j as int])));
        assert(string_views(r@) =~= before.push(seq!['!'] + pattern@));
        j += 1;
    }
    assert(exc.take(exc.len() as int) =~= exc);
    r
}

// ---------------------------------------------------------------------------
// Matching a symbol in a line
// ---------------------------------------------------------------------------

/// A character that continues a word.
pub open spec fn word_char(c: char) -> bool {
    alphanumeric(c) || c == '_'
}

pub fn is_word_character(character: Option<char>) -> (r: bool)
    ensures
        r == (character is Some && word_char(character->0)),
{
    match character {
        Some(c) => is_alphanumeric(c) || c == '_',
        None => false,
    }
}

/// Whether a line character matches a symbol character.
pub open spec fn chars_match(a: char, b: char, case_sensitive: bool) -> bool {
    if case_sensitive {
        a == b
    } else {
        ascii_fold(a) == ascii_fold(b) || a == b
    }
}

/// Whether the non-empty `symbol` occurs at character `i` of `line` as a whole
/// word: a symbol that starts (ends) with a word character may not be preceded
/// (followed) by one.
pub open spec fn match_at(line: Seq<char>, symbol: Seq<char>, case_sensitive: bool, i: int) -> bool {
    &&& symbol.len() > 0
    &&& 0 <= i && i + symbol.len() <= line.len()
    &&& forall|k: int| 0 <= k < symbol.len() ==> chars_match(line[i + k], symbol[k], case_sensitive)
    &&& !(word_char(symbol[0]) && i > 0 && word_char(line[i - 1]))
    &&& !(word_char(symbol.last()) && i + symbol.len() < line.len() && word_char(
        line[i + symbol.len()],
    ))
}

/// The character indices below `upto` where `symbol` matches, in increasing order.
pub open spec fn match_starts(line: Seq<char>, symbol: Seq<char>, case_sensitive: bool, upto: int) -> Seq<int>
    decreases upto,
{
    if upto <= 0 {
        Seq::empty()
    } else {
        let earlier = match_starts(line, symbol, case_sensitive, upto - 1);
        if match_at(line, symbol, case_sensitive, upto - 1) {
            earlier.push(upto - 1)
        } else {
            earlier
        }
    }
}

/// All the character indices where `symbol` matches in `line`, in increasing order.
pub open spec fn all_match_starts(line: Seq<char>, symbol: Seq<char>, case_sensitive: bool) -> Seq<int> {
    match_starts(line, symbol, case_sensitive, line.len() as int)
}

pub proof fn lemma_match_starts_beyond(line: Seq<char>, symbol: Seq<char>, cs: bool, upto: int)
    requires
        symbol.len() > 0,
        upto >= line.len() - symbol.len() + 1,
        upto <= line.len(),
    ensures
        match_starts(line, symbol, cs, upto) == all_match_starts(line, symbol, cs),
    decreases line.len() - upto,
{
    if upto < line.len() {
        lemma_match_starts_beyond(line, symbol, cs, upto + 1);
    }
}

pub proof fn lemma_match_starts_bounds(line: Seq<char>, symbol: Seq<char>, cs: bool, upto: int)
    ensures
        forall|k: int|
            0 <= k < match_starts(line, symbol, cs, upto).len() ==> 0 <= #[trigger] match_starts(
                line,
                symbol,
                cs,
                upto,
            )[k] < upto && match_at(line, symbol, cs, match_starts(line, symbol, cs, upto)[k]),
        forall|k: int, l: int|
            0 <= k < l < match_starts(line, symbol, cs, upto).len() ==> #[trigger] match_starts(
                line,
                symbol,
                cs,
                upto,
            )[k] < #[trigger] match_starts(line, symbol, cs, upto)[l],
    decreases upto,
{
    if upto > 0 {
        lemma_match_starts_bounds(line, symbol, cs, upto - 1);
        let prev = match_starts(line, symbol, cs, upto - 1);
        let cur = match_starts(line, symbol, cs, upto);
        if match_at(line, symbol, cs, upto - 1) {
            assert(cur == prev.push(upto - 1));
            assert forall|k: int| 0 <= k < cur.len() implies 0 <= #[trigger] cur[k] < upto && match_at(line, symbol, cs, cur[k]) by {
                if k < prev.len() {
                    assert(cur[k] == prev[k]);
                }
            }
            assert forall|k: int, l: int| 0 <= k < l < cur.len() implies #[trigger] cur[k] < #[trigger] cur[l] by {
                assert(cur[k] == prev[k]);
                if l < prev.len() {
                    assert(cur[l] == prev[l]);
                }
            }
        }
    }
}

/// The matches of `symbol` in `line` are exactly the whole-word occurrences:
/// an index is listed if and only if the symbol matches there.
pub proof fn law_match_starts_exact(line: Seq<char>, symbol: Seq<char>, cs: bool, i: int)
    ensures
        all_match_starts(line, symbol, cs).contains(i) <==> (0 <= i && match_at(line, symbol, cs, i)),
{
    lemma_match_starts_complete(line, symbol, cs, line.len() as int, i);
    lemma_match_starts_bounds(line, symbol, cs, line.len() as int);
}

proof fn lemma_match_starts_complete(line: Seq<char>, symbol: Seq<char>, cs: bool, upto: int, i: int)
    requires
        upto >= 0,
    ensures
        0 <= i < upto && match_at(line, symbol, cs, i) ==> match_starts(line, symbol, cs, upto).contains(i),
        match_starts(line, symbol, cs, upto).contains(i) ==> 0 <= i < upto && match_at(line, symbol, cs, i),
    decreases upto,
{
    lemma_match_starts_bounds(line, symbol, cs, upto);
    if upto > 0 {
        lemma_match_starts_complete(line, symbol, cs, upto - 1, i);
        let prev = match_starts(line, symbol, cs, upto - 1);
        let cur = match_starts(line, symbol, cs, upto);
        if 0 <= i < upto && match_at(line, symbol, cs, i) {
            if i == upto - 1 {
                assert(cur[cur.len() - 1] == i);
            } else {
                let k = choose|k: int| 0 <= k < prev.len() && prev[k] == i;
                assert(cur[k] == i);
            }
        }
        if cur.contains(i) {
            let k = choose|k: int| 0 <= k < cur.len() && cur[k] == i;
            assert(0 <= cur[k] < upto && match_at(line, symbol, cs, cur[k]));
        }
    }
}

fn chars_match_exec(a: char, b: char, case_sensitive: bool) -> (r: bool)
    ensures
        r == chars_match(a, b, case_sensitive),
{
    if case_sensitive {
        a == b
    } else {
        eq_ignore_ascii_case(a, b) || a == b
    }
}

/// Whether `symbol` matches at character `i` of `line` (see `match_at`).
pub fn is_match_at(line: &[char], symbol: &[char], case_sensitive: bool, i: usize) -> (r: bool)
    ensures
        r == match_at(line@, symbol@, case_sensitive, i as int),
{
    let n = symbol.len();
    if n == 0 || i > line.len() || line.len() - i < n {
        return false;
    }
    let len = line.len();
    let mut k: usize = 0;
    while k < n
        invariant
            n == symbol@.len(),
            len == line@.len(),
            i + n <= line@.len(),
            k <= n,
            forall|j: int| 0 <= j < k ==> chars_match(line@[i + j], symbol@[j], case_sensitive),
        decreases n - k,
    {
        if !chars_match_exec(line[i + k], symbol[k], case_sensitive) {
            return false;
        }
        k += 1;
    }
    let before = if i > 0 {
        Some(line[i - 1])
    } else {
        None
    };
    let after = if i + n < line.len() {
        Some(line[i + n])
    } else {
        None
    };
    if is_word_character(Some(symbol[0])) && is_word_character(before) {
        return false;
    }
    if is_word_character(Some(symbol[n - 1])) && is_word_character(after) {
        return false;
    }
    true
}

/// The character indices where `symbol` matches in `line`, in increasing order.
pub fn find_match_starts(line: &[char], symbol: &[char], case_sensitive: bool) -> (r: Vec<usize>)
    ensures
        r@.map_values(|x: usize| x as int) == all_match_starts(line@, symbol@, case_sensitive),
{
    let mut result: Vec<usize> = Vec::new();
    let mut i: usize = 0;
    assert(result@.map_values(|x: usize| x as int) =~= Seq::<int>::empty());
    while i < line.len()
        invariant
            i <= line@.len(),
            result@.map_values(|x: usize| x as int) == match_starts(
                line@,
                symbol@,
                case_sensitive,
                i as int,
            ),
        decreases line@.len() - i,
    {
        let ghost before = result@;
        if is_match_at(line, symbol, case_sensitive, i) {
            result.push(i);
            assert(result@.map_values(|x: usize| x as int) =~= before.map_values(
                |x: usize| x as int,
            ).push(i as int));
        }
        i += 1;
    }
    result
}

/// The byte ranges where `symbol` occurs in `line` as a whole word, in order.
pub fn find_matches(line: &str, symbol: &str, case_sensitive: bool) -> (r: Vec<(usize, usize)>)
    ensures
        r@.len() == all_match_starts(line@, symbol@, case_sensitive).len(),
        forall|k: int|
            0 <= k < r@.len() ==> {
                let i = #[trigger] all_match_starts(line@, symbol@, case_sensitive)[k];
                &&& r@[k].0 == utf8_len(line@.take(i))
                &&& r@[k].1 == utf8_len(line@.take(i + symbol@.len()))
            },
{
    let line_chars = chars_of(line);
    let symbol_chars = chars_of(symbol);
    let starts = find_match_starts(line_chars.as_slice(), symbol_chars.as_slice(), case_sensitive);
    let ghost all = all_match_starts(line@, symbol@, case_sensitive);
    proof {
        lemma_match_starts_bounds(line@, symbol@, case_sensitive, line@.len() as int);
    }
    let mut result: Vec<(usize, usize)> = Vec::new();
    let line_len = line_chars.len();
    let mut k: usize = 0;
    while k < starts.len()
        invariant
            line_chars@ == line@,
            line_len == line@.len(),
            symbol_chars@ == symbol@,
            utf8_len(line@) <= usize::MAX,
            starts@.map_values(|x: usize| x as int) == all,
            all == all_match_starts(line@, symbol@, case_sensitive),
            forall|j: int| 0 <= j < all.len() ==> 0 <= #[trigger] all[j] < line@.len() && match_at(line@, symbol@, case_sensitive, all[j]),
            k <= starts@.len(),
            result@.len() == k,
            forall|j: int|
                0 <= j < k ==> {
                    let i = #[trigger] all[j];
                    &&& result@[j].0 == utf8_len(line@.take(i))
                    &&& result@[j].1 == utf8_len(line@.take(i + symbol@.len()))
                },
        decreases starts@.len() - k,
    {
        let i = starts[k];
        assert(all[k as int] == i as int);
        let s = utf8_prefix_length(line_chars.as_slice(), i);
        let e = utf8_prefix_length(line_chars.as_slice(), i + symbol_chars.len());
        result.push((s, e));
        k += 1;
    }
    result
}

// ---------------------------------------------------------------------------
// Occurrences in a text
// ---------------------------------------------------------------------------

/// The occurrences of `symbol` in one line of a document.
pub open spec fn line_occurrences(
    uri: Seq<char>,
    path: Seq<char>,
    line_number: nat,
    line: Seq<char>,
    symbol: Seq<char>,
    case_sensitive: bool,
) -> Seq<OccurrenceView> {
    all_match_starts(line, symbol, case_sensitive).map_values(
        |i: int|
            OccurrenceView {
                uri,
                path,
                line: line_number,
                start: utf16_len(line.take(i)),
                end: utf16_len(line.take(i + symbol.len())),
                line_text: line,
            },
    )
}

/// The occurrences of `symbol` in the first `upto` lines.
pub open spec fn lines_occurrences(
    uri: Seq<char>,
    path: Seq<char>,
    lines: Seq<Seq<char>>,
    symbol: Seq<char>,
    case_sensitive: bool,
    upto: int,
) -> Seq<OccurrenceView>
    decreases upto,
{
    if upto <= 0 {
        Seq::empty()
    } else {
        lines_occurrences(uri, path, lines, symbol, case_sensitive, upto - 1) + line_occurrences(
            uri,
            path,
            (upto - 1) as nat,
            lines[upto - 1],
            symbol,
            case_sensitive,
        )
    }
}

/// The occurrences of `symbol` in a document's text, line by line.
pub open spec fn text_occurrences(
    uri: Seq<char>,
    path: Seq<char>,
    text: Seq<char>,
    symbol: Seq<char>,
    case_sensitive: bool,
) -> Seq<OccurrenceView> {
    lines_occurrences(
        uri,
        path,
        split_lines(text),
        symbol,
        case_sensitive,
        split_lines(text).len() as int,
    )
}

proof fn lemma_line_piece_bound(text: Seq<char>, lines: Seq<Seq<char>>, k: int)
    requires
        lines == split_lines(text),
        0 <= k < lines.len(),
    ensures
        utf8_len(lines[k]) <= utf8_len(text),
        lines.len() <= text.len() + 1,
    decreases text.len(),
{
    match crate::position::first_index_of(text, '\n') {
        None => {},
        Some(i) => {
            if 0 <= i < text.len() {
                lemma_utf8_len_take_mono(text, i, i);
                lemma_utf8_len_take_mono(text, i + 1, text.len() as int);
                crate::text::lemma_utf8_len_add(text.take(i + 1), text.skip(i + 1));
                assert(text.take(i + 1) + text.skip(i + 1) =~= text);
                if k > 0 {
                    lemma_line_piece_bound(text.skip(i + 1), split_lines(text.skip(i + 1)), k - 1);
                } else {
                    lemma_utf8_len_take_mono(text, i, text.len() as int);
                    assert(text.take(text.len() as int) =~= text);
                }
                if k == 0 {
                    lemma_line_count(text.skip(i + 1));
                }
            }
        },
    }
}

proof fn lemma_line_count(text: Seq<char>)
    ensures
        split_lines(text).len() <= text.len() + 1,
    decreases text.len(),
{
    match crate::position::first_index_of(text, '\n') {
        None => {},
        Some(i) => {
            if 0 <= i < text.len() {
                lemma_line_count(text.skip(i + 1));
            }
        },
    }
}

/// The occurrences of `symbol` in a document's text.
pub fn text_matches(uri: &str, path: &str, text: &str, symbol: &str, case_sensitive: bool) -> (r: Vec<
    Occurrence,
>)
    ensures
        occurrence_views(r@) == text_occurrences(uri@, path@, text@, symbol@, case_sensitive),
{
    let text_chars = chars_of(text);
    let symbol_chars = chars_of(symbol);
    let lines = split_lines_of(text_chars.as_slice());
    let ghost line_views = split_lines(text@);
    let mut results: Vec<Occurrence> = Vec::new();
    let mut line_number: usize = 0;
    proof {
        lemma_line_count(text@);
    }
    assert(occurrence_views(results@) =~= Seq::<OccurrenceView>::empty());
    while line_number < lines.len()
        invariant
            line_number <= lines@.len(),
            views(lines@) == line_views,
            line_views == split_lines(text@),
            text_chars@ == text@,
            symbol_chars@ == symbol@,
            utf8_len(text@) <= usize::MAX,
            occurrence_views(results@) == lines_occurrences(
                uri@,
                path@,
                line_views,
                symbol@,
                case_sensitive,
                line_number as int,
            ),
        decreases lines@.len() - line_number,
    {
        let line = &lines[line_number];
        assert(line@ == line_views[line_number as int]);
        proof {
            lemma_line_piece_bound(text@, line_views, line_number as int);
            lemma_match_starts_bounds(line@, symbol@, case_sensitive, line@.len() as int);
        }
        let starts = find_match_starts(line.as_slice(), symbol_chars.as_slice(), case_sensitive);
        let ghost all = all_match_starts(line@, symbol@, case_sensitive);
        let ghost base = occurrence_views(results@);
        let ghost piece = line_occurrences(uri@, path@, line_number as nat, line@, symbol@, case_sensitive);
        let line_len = line.len();
        let mut k: usize = 0;
        assert(base + piece.take(0) =~= base);
        while k < starts.len()
            invariant
                line@ == line_views[line_number as int],
                line_len == line@.len(),
                utf8_len(line@) <= usize::MAX,
                symbol_chars@ == symbol@,
                starts@.map_values(|x: usize| x as int) == all,
                all == all_match_starts(line@, symbol@, case_sensitive),
                piece == line_occurrences(uri@, path@, line_number as nat, line@, symbol@, case_sensitive),
                forall|j: int| 0 <= j < all.len() ==> 0 <= #[trigger] all[j] < line@.len() && match_at(line@, symbol@, case_sensitive, all[j]),
                k <= starts@.len(),
                occurrence_views(results@) == base + piece.take(k as int),
            decreases starts@.len() - k,
        {
            let i = starts[k];
            assert(all[k as int] == i as int);
            let start = utf16_prefix_length(line.as_slice(), i);
            let end = utf16_prefix_length(line.as_slice(), i + symbol_chars.len());
            let occurrence = Occurrence {
                uri: uri.to_owned(),
                path: path.to_owned(),
                line: line_number,
                start,
                end,
                line_text: string_from_chars(line.as_slice()),
            };
            let ghost prev = results@;
            results.push(occurrence);
            assert(occurrence_views(results@) =~= occurrence_views(prev).push(occurrence@));
            assert(piece.take(k + 1) =~= piece.take(k as int).push(piece[k as int]));
            k += 1;
        }
        assert(piece.take(starts@.len() as int) =~= piece);
        line_number += 1;
    }
    results
}


// ---------------------------------------------------------------------------
// Occurrences found on disk
// ---------------------------------------------------------------------------

/// `s` without the line terminators (`\r`, `\n`) at its end.
pub open spec fn trim_line_end(s: Seq<char>) -> Seq<char>
    decreases s.len(),
{
    if s.len() > 0 && (s.last() == '\r' || s.last() == '\n') {
        trim_line_end(s.drop_last())
    } else {
        s
    }
}

/// Whether a match of `symbol` at characters `[ks, ke)` of `line` stands as a
/// whole word (the check applied to matches that a file search reports).
pub open spec fn word_bounded(line: Seq<char>, symbol: Seq<char>, ks: int, ke: int) -> bool {
    &&& !(symbol.len() > 0 && word_char(symbol[0]) && ks > 0 && word_char(line[ks - 1]))
    &&& !(symbol.len() > 0 && word_char(symbol.last()) && ke < line.len() && word_char(line[ke]))
}

/// Matching that ignores case folds ASCII letters only: two characters match
/// when they are equal or are the upper- and lower-case forms of one ASCII
/// letter; matching that heeds case needs them equal.
pub proof fn law_case_folding(a: char, b: char)
    ensures
        chars_match(a, b, true) <==> a == b,
        chars_match(a, b, false) <==> (a == b || ('A' <= a && a <= 'Z' && (b as u32) == (a as u32) + 32) || (
        'a' <= a && a <= 'z' && (a as u32) == (b as u32) + 32)),
{
}

/// What makes a match whole-word: letters, digits (Unicode alphanumerics) and
/// `_` continue a word, so where the characters of `line` from `i` match a
/// non-empty `symbol`, the match stands unless a symbol that starts with such a
/// character has one right before it, or one that ends with such a character
/// has one right after it. So `user` does not match inside `get_user` or
/// `user_id`, while `C++` matches in `C++x`.
pub proof fn law_whole_word_matches(line: Seq<char>, symbol: Seq<char>, cs: bool, i: int)
    requires
        symbol.len() > 0,
        0 <= i,
        i + symbol.len() <= line.len(),
        forall|k: int| 0 <= k < symbol.len() ==> chars_match(#[trigger] line[i + k], symbol[k], cs),
    ensures
        match_at(line, symbol, cs, i) <==> {
            &&& !((alphanumeric(symbol[0]) || symbol[0] == '_') && i > 0 && (alphanumeric(line[i - 1]) || line[i
                - 1] == '_'))
            &&& !((alphanumeric(symbol.last()) || symbol.last() == '_') && i + symbol.len() < line.len() && (
            alphanumeric(line[i + symbol.len()]) || line[i + symbol.len()] == '_'))
        },
{
}

/// Files on disk and open buffers are matched alike: where the characters of
/// `line` from `i` match a non-empty `symbol`, the whole-word test applied to a
/// file search's hit agrees with the one that `find_matches` applies.
pub proof fn law_disk_and_buffer_matching_agree(line: Seq<char>, symbol: Seq<char>, cs: bool, i: int)
    requires
        symbol.len() > 0,
        0 <= i,
        i + symbol.len() <= line.len(),
        forall|k: int| 0 <= k < symbol.len() ==> chars_match(#[trigger] line[i + k], symbol[k], cs),
    ensures
        word_bounded(line, symbol, i, i + symbol.len()) == match_at(line, symbol, cs, i),
{
}

/// Whether byte offset `b` of the UTF-8 encoding of `s` falls between characters.
pub open spec fn byte_boundary(s: Seq<char>, b: int) -> bool {
    exists|k: int| 0 <= k <= s.len() && utf8_len(s.take(k)) == b
}

proof fn lemma_utf8_prefix_strict(s: Seq<char>, i: int, j: int)
    requires
        0 <= i < j <= s.len(),
    ensures
        utf8_len(s.take(i)) < utf8_len(s.take(j)),
{
    crate::text::lemma_utf8_len_add(s.take(i), s.subrange(i, j));
    assert(s.take(i) + s.subrange(i, j) =~= s.take(j));
    assert(s.subrange(i, j).len() > 0);
}

/// The character index at which byte offset `b` of `chars` falls.
fn char_index_of_byte(chars: &[char], b: usize) -> (k: usize)
    requires
        byte_boundary(chars@, b as int),
        utf8_len(chars@) <= usize::MAX,
    ensures
        k <= chars@.len(),
        utf8_len(chars@.take(k as int)) == b,
{
    let ghost target = choose|k: int| 0 <= k <= chars@.len() && utf8_len(chars@.take(k)) == b;
    let mut bytes: usize = 0;
    let mut i: usize = 0;
    while bytes < b
        invariant
            0 <= target <= chars@.len(),
            utf8_len(chars@.take(target)) == b,
            utf8_len(chars@) <= usize::MAX,
            i <= target,
            bytes == utf8_len(chars@.take(i as int)),
        decreases target - i,
    {
        proof {
            if i == target {
                assert(false);
            }
            lemma_utf8_len_push(chars@.take(i as int), chars@[i as int]);
            assert(chars@.take(i + 1) =~= chars@.take(i as int).push(chars@[i as int]));
            lemma_utf8_len_take_mono(chars@, i + 1, chars@.len() as int);
            if i + 1 > target {
                assert(false);
            }
            if i + 1 < target {
                lemma_utf8_prefix_strict(chars@, i + 1, target);
            }
        }
        bytes = bytes + utf8_width_of(chars[i]);
        i += 1;
    }
    proof {
        if i < target {
            lemma_utf8_prefix_strict(chars@, i as int, target);
        }
    }
    i
}

/// The occurrence that a file search reports as a match at bytes `[start, end)` of
/// `line` (the line as read, with its terminator) on one-based line
/// `line_number`, when the match stands as a whole word.
pub open spec fn hit_spec(
    uri: Seq<char>,
    path: Seq<char>,
    line_number: u64,
    line: Seq<char>,
    symbol: Seq<char>,
    ks: int,
    ke: int,
) -> Option<OccurrenceView> {
    if word_bounded(line, symbol, ks, ke) {
        Some(
            OccurrenceView {
                uri,
                path,
                line: (if line_number == 0 {
                    0
                } else {
                    line_number - 1
                }) as usize as nat,
                start: utf16_len(line.take(ks)),
                end: utf16_len(line.take(ke)),
                line_text: trim_line_end(line),
            },
        )
    } else {
        None
    }
}

/// The character index at which byte offset `b` of the UTF-8 encoding of
/// `line` falls (meaningful when `byte_boundary(line, b)`).
pub open spec fn char_index_at_byte(line: Seq<char>, b: int) -> int {
    choose|k: int| 0 <= k <= line.len() && utf8_len(line.take(k)) == b
}

proof fn lemma_char_index_at_byte(line: Seq<char>, b: int, k: int)
    requires
        0 <= k <= line.len(),
        utf8_len(line.take(k)) == b,
    ensures
        byte_boundary(line, b),
        char_index_at_byte(line, b) == k,
{
    let c = char_index_at_byte(line, b);
    if c < k {
        lemma_utf8_prefix_strict(line, c, k);
    } else if k < c {
        lemma_utf8_prefix_strict(line, k, c);
    }
}

/// The occurrence for a hit at bytes `hit.0 .. hit.1` of `line`: `None` when an
/// end does not fall between characters or the match is not a whole word.
pub open spec fn hit_occurrence(
    uri: Seq<char>,
    path: Seq<char>,
    line_number: u64,
    line: Seq<char>,
    symbol: Seq<char>,
    hit: (usize, usize),
) -> Option<OccurrenceView> {
    if byte_boundary(line, hit.0 as int) && byte_boundary(line, hit.1 as int) {
        hit_spec(
            uri,
            path,
            line_number,
            line,
            symbol,
            char_index_at_byte(line, hit.0 as int),
            char_index_at_byte(line, hit.1 as int),
        )
    } else {
        None
    }
}

/// The occurrences for a list of hits on one line, in order, each hit that
/// `hit_occurrence` accepts.
pub open spec fn hits_occurrences(
    uri: Seq<char>,
    path: Seq<char>,
    line_number: u64,
    line: Seq<char>,
    symbol: Seq<char>,
    hits: Seq<(usize, usize)>,
) -> Seq<OccurrenceView>
    decreases hits.len(),
{
    if hits.len() == 0 {
        Seq::empty()
    } else {
        let earlier = hits_occurrences(uri, path, line_number, line, symbol, hits.drop_last());
        match hit_occurrence(uri, path, line_number, line, symbol, hits.last()) {
            Some(o) => earlier.push(o),
            None => earlier,
        }
    }
}

/// The occurrences that the matcher's hits give on one line; none when the
/// matcher could not be built.
pub open spec fn hits_spec(
    uri: Seq<char>,
    path: Seq<char>,
    line_number: u64,
    line: Seq<char>,
    symbol: Seq<char>,
    hits: Option<Seq<(usize, usize)>>,
) -> Seq<OccurrenceView> {
    match hits {
        Some(h) => hits_occurrences(uri, path, line_number, line, symbol, h),
        None => Seq::empty(),
    }
}

/// The leftmost non-overlapping occurrences of `needle` in `hay` from byte
/// `from` on, as byte ranges; none for an empty needle.
pub open spec fn literal_hits(hay: Seq<u8>, needle: Seq<u8>, from: int) -> Seq<(usize, usize)>
    decreases hay.len() - from,
{
    if needle.len() == 0 || from < 0 || from + needle.len() > hay.len() {
        Seq::empty()
    } else if hay.subrange(from, from + needle.len()) == needle {
        seq![(from as usize, (from + needle.len()) as usize)] + literal_hits(hay, needle, from + needle.len())
    } else {
        literal_hits(hay, needle, from + 1)
    }
}

/// What grep's fixed-string matcher reports for `symbol` in `line`: the byte
/// ranges of its successive non-overlapping matches; `None` when the matcher
/// cannot be built.
pub uninterp spec fn grep_hits(line: Seq<char>, symbol: Seq<char>, case_sensitive: bool) -> Option<Seq<(usize, usize)>>;

/// grep's `RegexMatcherBuilder` with `fixed_strings(true)` and
/// `case_insensitive(!case_sensitive)`, then `Matcher::find_iter` over the line's
/// bytes: the start and end of every match, in order. The result is named as a
/// function of the line, the symbol and the flag. For a case-sensitive,
/// non-empty symbol the contract also states it: the symbol is a literal and
/// the regex engine reports leftmost matches, so the hits are the leftmost
/// non-overlapping occurrences of the symbol's bytes. Case-insensitive matching
/// (Unicode case folding) and when building fails are not restated.
#[verifier::external_body]
fn find_hits(line: &str, symbol: &str, case_sensitive: bool) -> (r: Option<Vec<(usize, usize)>>)
    ensures
        match r {
            Some(v) => grep_hits(line@, symbol@, case_sensitive) == Some(v@),
            None => grep_hits(line@, symbol@, case_sensitive) is None,
        },
        match r {
            Some(v) => case_sensitive && symbol@.len() > 0 ==> v@ == literal_hits(
                vstd::utf8::encode_utf8(line@),
                vstd::utf8::encode_utf8(symbol@),
                0,
            ),
            None => true,
        },
{
    let mut builder = grep::regex::RegexMatcherBuilder::new();
    builder.fixed_strings(true).case_insensitive(!case_sensitive);
    let matcher = match builder.build(symbol) {
        Ok(m) => m,
        Err(_) => return None,
    };
    let mut hits = Vec::new();
    let _ = grep::matcher::Matcher::find_iter(&matcher, line.as_bytes(), |m| {
        hits.push((m.start(), m.end()));
        true
    });
    Some(hits)
}

/// The character index at byte offset `b` of `chars`, or `None` when `b` does
/// not fall between characters.
fn byte_char_index(chars: &[char], b: usize) -> (r: Option<usize>)
    requires
        utf8_len(chars@) <= usize::MAX,
    ensures
        match r {
            Some(k) => k <= chars@.len() && utf8_len(chars@.take(k as int)) == b,
            None => !byte_boundary(chars@, b as int),
        },
{
    let mut bytes: usize = 0;
    let mut i: usize = 0;
    assert(chars@.take(0) =~= Seq::<char>::empty());
    while i < chars.len() && bytes < b
        invariant
            i <= chars@.len(),
            bytes == utf8_len(chars@.take(i as int)),
            utf8_len(chars@) <= usize::MAX,
            forall|k: int| 0 <= k < i ==> utf8_len(#[trigger] chars@.take(k)) < b,
        decreases chars@.len() - i,
    {
        proof {
            lemma_utf8_len_push(chars@.take(i as int), chars@[i as int]);
            assert(chars@.take(i + 1) =~= chars@.take(i as int).push(chars@[i as int]));
            lemma_utf8_len_take_mono(chars@, i + 1, chars@.len() as int);
        }
        bytes = bytes + utf8_width_of(chars[i]);
        i += 1;
    }
    if bytes == b {
        Some(i)
    } else {
        proof {
            assert forall|k: int| 0 <= k <= chars@.len() implies utf8_len(#[trigger] chars@.take(k)) != b by {
                if k > i {
                    lemma_utf8_prefix_strict(chars@, i as int, k);
                }
            }
        }
        None
    }
}

/// The occurrences of `symbol` that grep's matcher finds on one line of a file
/// (`line` as read, with its terminator, on one-based line `line_number`): each
/// hit that falls between characters and stands as a whole word, in order. For
/// a case-sensitive, non-empty symbol the hits are the leftmost non-overlapping
/// occurrences of its bytes.
pub fn line_hits(uri: &str, path: &str, line_number: u64, line: &str, symbol: &str, case_sensitive: bool) -> (r:
    Vec<Occurrence>)
    ensures
        occurrence_views(r@) == hits_spec(
            uri@,
            path@,
            line_number,
            line@,
            symbol@,
            grep_hits(line@, symbol@, case_sensitive),
        ),
        case_sensitive && symbol@.len() > 0 ==> match grep_hits(line@, symbol@, case_sensitive) {
            Some(h) => h == literal_hits(vstd::utf8::encode_utf8(line@), vstd::utf8::encode_utf8(symbol@), 0),
            None => true,
        },
{
    let mut out: Vec<Occurrence> = Vec::new();
    let found = find_hits(line, symbol, case_sensitive);
    let hits = match found {
        Some(h) => h,
        None => {
            assert(occurrence_views(out@) =~= Seq::<OccurrenceView>::empty());
            return out;
        },
    };
    let chars = chars_of(line);
    let mut k: usize = 0;
    assert(hits@.take(0) =~= Seq::<(usize, usize)>::empty());
    assert(occurrence_views(out@) =~= Seq::<OccurrenceView>::empty());
    while k < hits.len()
        invariant
            k <= hits@.len(),
            chars@ == line@,
            utf8_len(chars@) <= usize::MAX,
            occurrence_views(out@) == hits_occurrences(uri@, path@, line_number, line@, symbol@, hits@.take(k as int)),
        decreases hits@.len() - k,
    {
        let ghost before = occurrence_views(out@);
        let (s, e) = hits[k];
        let ghost h = hits@.take(k + 1);
        assert(h.drop_last() =~= hits@.take(k as int));
        assert(h.last() == (s, e));
        match (byte_char_index(chars.as_slice(), s), byte_char_index(chars.as_slice(), e)) {
            (Some(ks), Some(ke)) => {
                proof {
                    lemma_char_index_at_byte(line@, s as int, ks as int);
                    lemma_char_index_at_byte(line@, e as int, ke as int);
                }
                match occurrence_from_hit(uri, path, line_number, line, symbol, s, e) {
                    Some(o) => {
                        out.push(o);
                        assert(occurrence_views(out@) =~= before.push(o@));
                    },
                    None => {},
                }
            },
            _ => {},
        }
        k += 1;
    }
    assert(hits@.take(hits@.len() as int) =~= hits@);
    out
}

/// The occurrence for a match that a file search found at bytes `[start, end)`
/// of `line`, or `None` when the match does not stand as a whole word.
pub fn occurrence_from_hit(
    uri: &str,
    path: &str,
    line_number: u64,
    line: &str,
    symbol: &str,
    start: usize,
    end: usize,
) -> (r: Option<Occurrence>)
    requires
        byte_boundary(line@, start as int),
        byte_boundary(line@, end as int),
    ensures
        match r {
            Some(o) => hit_occurrence(uri@, path@, line_number, line@, symbol@, (start, end)) == Some(o@),
            None => hit_occurrence(uri@, path@, line_number, line@, symbol@, (start, end)) is None,
        },
{
    let chars = chars_of(line);
    let symbol_chars = chars_of(symbol);
    let ks = char_index_of_byte(chars.as_slice(), start);
    let ke = char_index_of_byte(chars.as_slice(), end);
    proof {
        lemma_char_index_at_byte(line@, start as int, ks as int);
        lemma_char_index_at_byte(line@, end as int, ke as int);
    }
    let before = if ks > 0 {
        Some(chars[ks - 1])
    } else {
        None
    };
    let after = if ke < chars.len() {
        Some(chars[ke])
    } else {
        None
    };
    let n = symbol_chars.len();
    let first = if n > 0 {
        Some(symbol_chars[0])
    } else {
        None
    };
    let last = if n > 0 {
        Some(symbol_chars[n - 1])
    } else {
        None
    };
    if is_word_character(first) && is_word_character(before) {
        assert(hit_spec(uri@, path@, line_number, line@, symbol@, ks as int, ke as int) is None);
        return None;
    }
    if is_word_character(last) && is_word_character(after) {
        assert(hit_spec(uri@, path@, line_number, line@, symbol@, ks as int, ke as int) is None);
        return None;
    }
    let s16 = utf16_prefix_length(chars.as_slice(), ks);
    let e16 = utf16_prefix_length(chars.as_slice(), ke);
    let mut text_end = chars.len();
    assert(chars@.take(chars@.len() as int) =~= chars@);
    while text_end > 0 && (chars[text_end - 1] == '\r' || chars[text_end - 1] == '\n')
        invariant
            text_end <= chars@.len(),
            trim_line_end(chars@.take(text_end as int)) == trim_line_end(chars@),
        decreases text_end,
    {
        assert(chars@.take(text_end as int).drop_last() =~= chars@.take(text_end - 1));
        text_end -= 1;
    }
    assert(chars@.take(chars@.len() as int) =~= chars@);
    let line_text = string_from_chars(crate::text::slice_of(chars.as_slice(), 0, text_end).as_slice());
    assert(chars@.subrange(0, text_end as int) =~= chars@.take(text_end as int));
    let line_index: u64 = if line_number == 0 {
        0
    } else {
        line_number - 1
    };
    Some(
        Occurrence {
            uri: uri.to_owned(),
            path: path.to_owned(),
            line: line_index as usize,
            start: s16,
            end: e16,
            line_text,
        },
    )
}

// ---------------------------------------------------------------------------
// The merged result list
// ---------------------------------------------------------------------------

/// An open document: its URI and the text the editor holds.
pub struct Document {
    pub uri: String,
    pub text: String,
}

/// An open document as values: its URI and text.
pub open spec fn document_view(d: Document) -> (Seq<char>, Seq<char>) {
    (d.uri@, d.text@)
}

/// The views of the open documents, in order.
pub open spec fn document_views(docs: Seq<Document>) -> Seq<(Seq<char>, Seq<char>)> {
    docs.map_values(|d: Document| document_view(d))
}

/// Two occurrences name the same place.
pub open spec fn same_key(a: OccurrenceView, b: OccurrenceView) -> bool {
    a.uri == b.uri && a.line == b.line && a.start == b.start && a.end == b.end
}

/// The order of results: by document URI, then line, start and end column.
pub open spec fn key_less(a: OccurrenceView, b: OccurrenceView) -> bool {
    ||| seq_less(a.uri, b.uri)
    ||| (a.uri == b.uri && a.line < b.line)
    ||| (a.uri == b.uri && a.line == b.line && a.start < b.start)
    ||| (a.uri == b.uri && a.line == b.line && a.start == b.start && a.end < b.end)
}

/// Strictly increasing by key, hence one occurrence per place.
pub open spec fn sorted_by_key(s: Seq<OccurrenceView>) -> bool {
    forall|i: int, j: int| 0 <= i < j < s.len() ==> key_less(#[trigger] s[i], #[trigger] s[j])
}

pub proof fn lemma_key_order(a: OccurrenceView, b: OccurrenceView, c: OccurrenceView)
    ensures
        !key_less(a, a),
        same_key(a, b) || key_less(a, b) || key_less(b, a),
        !(key_less(a, b) && key_less(b, a)),
        !(key_less(a, b) && same_key(a, b)),
        key_less(a, b) && key_less(b, c) ==> key_less(a, c),
        key_less(a, b) && same_key(b, c) ==> key_less(a, c),
        same_key(a, b) && key_less(b, c) ==> key_less(a, c),
{
    lemma_seq_less_irreflexive(a.uri);
    lemma_seq_less_total(a.uri, b.uri);
    lemma_seq_less_total(b.uri, c.uri);
    lemma_seq_less_total(a.uri, c.uri);
    if seq_less(a.uri, b.uri) && seq_less(b.uri, c.uri) {
        lemma_seq_less_transitive(a.uri, b.uri, c.uri);
    }
}

/// `o` is one of `candidates`, and no later candidate is at its place.
pub open spec fn last_at_place(o: OccurrenceView, candidates: Seq<OccurrenceView>) -> bool {
    exists|j: int|
        0 <= j < candidates.len() && #[trigger] candidates[j] == o && forall|k: int|
            j < k < candidates.len() ==> !same_key(#[trigger] candidates[k], o)
}

/// `r` lists, in key order and without repeating a place, the first
/// `max` places among `candidates`, each by the last candidate found there.
pub open spec fn is_merged_result(r: Seq<OccurrenceView>, candidates: Seq<OccurrenceView>, max: nat) -> bool {
    &&& sorted_by_key(r)
    &&& r.len() <= max
    &&& forall|i: int| 0 <= i < r.len() ==> last_at_place(#[trigger] r[i], candidates)
    &&& forall|j: int| 0 <= j < candidates.len() ==> placed_or_beyond(r, #[trigger] candidates[j], max)
}

/// `o`'s place is in `r`, or `r` is full and ends before `o`'s place.
pub open spec fn placed_or_beyond(r: Seq<OccurrenceView>, o: OccurrenceView, max: nat) -> bool {
    has_place(r, o) || (r.len() == max && (max == 0 || key_less(r.last(), o)))
}

/// Compares the keys of two occurrences: negative, zero or positive.
pub fn compare_keys(a: &Occurrence, b: &Occurrence) -> (r: i8)
    ensures
        r < 0 <==> key_less(a@, b@),
        r == 0 <==> same_key(a@, b@),
        r > 0 <==> key_less(b@, a@),
{
    proof {
        lemma_key_order(a@, b@, b@);
        lemma_key_order(b@, a@, a@);
    }
    let ua = chars_of(a.uri.as_str());
    let ub = chars_of(b.uri.as_str());
    let c = compare_chars(ua.as_slice(), ub.as_slice());
    if c != 0 {
        return c;
    }
    if a.line != b.line {
        return if a.line < b.line {
            -1
        } else {
            1
        };
    }
    if a.start != b.start {
        return if a.start < b.start {
            -1
        } else {
            1
        };
    }
    if a.end != b.end {
        return if a.end < b.end {
            -1
        } else {
            1
        };
    }
    0
}

/// Every one of the first `upto` candidates has an element of `r` at its place.
pub open spec fn covers(r: Seq<OccurrenceView>, c: Seq<OccurrenceView>, upto: int) -> bool {
    forall|j: int| 0 <= j < upto ==> #[trigger] has_place(r, c[j])
}

/// Some element of `r` is at the place of `o`.
pub open spec fn has_place(r: Seq<OccurrenceView>, o: OccurrenceView) -> bool {
    exists|i: int| 0 <= i < r.len() && same_key(#[trigger] r[i], o)
}

/// Puts `occurrence` into the key-ordered `results`, replacing the one with the
/// same key if there is one.
fn insert_by_key(results: &mut Vec<Occurrence>, occurrence: Occurrence)
    requires
        sorted_by_key(occurrence_views(old(results)@)),
    ensures
        sorted_by_key(occurrence_views(final(results)@)),
        forall|i: int|
            0 <= i < final(results)@.len() ==> #[trigger] occurrence_views(final(results)@)[i] == occurrence@
                || (occurrence_views(old(results)@).contains(occurrence_views(final(results)@)[i])
                && !same_key(occurrence_views(final(results)@)[i], occurrence@)),
        has_place(occurrence_views(final(results)@), occurrence@),
        occurrence_views(final(results)@).contains(occurrence@),
        covers(occurrence_views(final(results)@), occurrence_views(old(results)@), old(results)@.len() as int),
{
    let ghost ov = occurrence_views(results@);
    let ghost initial = results@;
    let mut p: usize = 0;
    while p < results.len() && compare_keys(&results[p], &occurrence) < 0
        invariant
            p <= results@.len(),
            results@ == initial,
            ov == occurrence_views(initial),
            sorted_by_key(ov),
            forall|i: int| 0 <= i < p ==> key_less(#[trigger] ov[i], occurrence@),
        decreases results@.len() - p,
    {
        p += 1;
    }
    if p < results.len() && compare_keys(&results[p], &occurrence) == 0 {
        let ghost at = results@[p as int];
        results.set(p, occurrence);
        let ghost nv = occurrence_views(results@);
        proof {
            assert(same_key(at@, occurrence@));
            assert(results@ == initial.update(p as int, occurrence));
            assert(nv =~= ov.update(p as int, occurrence@));
            assert forall|i: int, j: int| 0 <= i < j < nv.len() implies key_less(#[trigger] nv[i], #[trigger] nv[j]) by {
                assert(key_less(ov[i], ov[j]));
                lemma_key_order(ov[i], at@, occurrence@);
                lemma_key_order(occurrence@, at@, ov[j]);
                lemma_key_order(at@, occurrence@, ov[j]);
            }
            assert forall|i: int| 0 <= i < nv.len() implies #[trigger] nv[i] == occurrence@ || (ov.contains(nv[i])
                && !same_key(nv[i], occurrence@)) by {
                if i != p {
                    assert(nv[i] == ov[i]);
                    if i < p {
                        assert(ov[p as int] == at@);
                        assert(key_less(ov[i], ov[p as int]));
                        lemma_key_order(ov[i], at@, occurrence@);
                    } else {
                        assert(ov[p as int] == at@);
                        assert(key_less(ov[p as int], ov[i]));
                        lemma_key_order(occurrence@, at@, ov[i]);
                        lemma_key_order(occurrence@, ov[i], ov[i]);
                    }
                }
            }
            assert(nv[p as int] == occurrence@);
            assert(same_key(nv[p as int], occurrence@));
            assert forall|j: int| 0 <= j < ov.len() implies #[trigger] has_place(nv, ov[j]) by {
                assert(same_key(nv[j], ov[j]));
            }
        }
    } else {
        proof {
            if p < initial.len() {
                lemma_key_order(ov[p as int], occurrence@, occurrence@);
            }
        }
        results.insert(p, occurrence);
        let ghost nv = occurrence_views(results@);
        proof {
            assert(results@ == initial.insert(p as int, occurrence));
            assert(nv =~= ov.insert(p as int, occurrence@));
            assert forall|i: int, j: int| 0 <= i < j < nv.len() implies key_less(#[trigger] nv[i], #[trigger] nv[j]) by {
                if j < p {
                    assert(key_less(ov[i], ov[j]));
                } else if j == p {
                    assert(key_less(ov[i], occurrence@));
                } else if i < p {
                    assert(key_less(ov[i], occurrence@));
                    lemma_key_order(occurrence@, ov[p as int], ov[j - 1]);
                    if p < j - 1 {
                        assert(key_less(ov[p as int], ov[j - 1]));
                    }
                    lemma_key_order(ov[i], occurrence@, ov[j - 1]);
                } else if i == p {
                    lemma_key_order(occurrence@, ov[p as int], ov[j - 1]);
                    if p < j - 1 {
                        assert(key_less(ov[p as int], ov[j - 1]));
                    }
                } else {
                    assert(key_less(ov[i - 1], ov[j - 1]));
                }
            }
            assert forall|i: int| 0 <= i < nv.len() implies #[trigger] nv[i] == occurrence@ || (ov.contains(nv[i])
                && !same_key(nv[i], occurrence@)) by {
                if i < p {
                    assert(nv[i] == ov[i]);
                    lemma_key_order(ov[i], occurrence@, occurrence@);
                } else if i > p {
                    assert(nv[i] == ov[i - 1]);
                    if i - 1 > p {
                        assert(key_less(ov[p as int], ov[i - 1]));
                    }
                    lemma_key_order(occurrence@, ov[p as int], ov[i - 1]);
                    lemma_key_order(occurrence@, ov[i - 1], ov[i - 1]);
                }
            }
            assert(nv[p as int] == occurrence@);
            assert(same_key(nv[p as int], occurrence@));
            assert forall|j: int| 0 <= j < ov.len() implies #[trigger] has_place(nv, ov[j]) by {
                if j < p {
                    assert(same_key(nv[j], ov[j]));
                } else {
                    assert(same_key(nv[j + 1], ov[j]));
                }
            }
        }
    }
}

/// Orders `candidates` by key, keeps one occurrence per place (the last one
/// given for it) and at most `max` of them.
pub fn merge_by_key(candidates: &Vec<Occurrence>, max: usize) -> (r: Vec<Occurrence>)
    ensures
        is_merged_result(occurrence_views(r@), occurrence_views(candidates@), max as nat),
{
    let ghost cv = occurrence_views(candidates@);
    let mut results: Vec<Occurrence> = Vec::new();
    let n = candidates.len();
    let mut k: usize = 0;
    while k < n
        invariant
            k <= n == candidates@.len(),
            cv == occurrence_views(candidates@),
            sorted_by_key(occurrence_views(results@)),
            forall|i: int| 0 <= i < results@.len() ==> last_at_place(#[trigger] occurrence_views(results@)[i], cv.take(k as int)),
            covers(occurrence_views(results@), cv, k as int),
        decreases n - k,
    {
        let ghost before = occurrence_views(results@);
        let o = candidates[k].duplicate();
        insert_by_key(&mut results, o);
        proof {
            lemma_insert_step(cv, k as int, before, occurrence_views(results@));
        }
        k += 1;
    }
    assert(cv.take(n as int) =~= cv);
    let ghost full = occurrence_views(results@);
    if results.len() > max {
        results.truncate(max);
    }
    proof {
        assert(occurrence_views(results@) =~= full.take(results@.len() as int));
        lemma_truncated_merge(cv, full, occurrence_views(results@), max as nat);
    }
    results
}

proof fn lemma_covers_transfer(a: Seq<OccurrenceView>, b: Seq<OccurrenceView>, o: OccurrenceView)
    requires
        has_place(a, o),
        covers(b, a, a.len() as int),
    ensures
        has_place(b, o),
{
    let i = choose|i: int| 0 <= i < a.len() && same_key(#[trigger] a[i], o);
    assert(has_place(b, a[i]));
    let x = choose|x: int| 0 <= x < b.len() && same_key(#[trigger] b[x], a[i]);
    assert(same_key(b[x], o));
}

proof fn lemma_insert_step(cv: Seq<OccurrenceView>, k: int, before: Seq<OccurrenceView>, after: Seq<OccurrenceView>)
    requires
        0 <= k < cv.len(),
        forall|i: int| 0 <= i < before.len() ==> last_at_place(#[trigger] before[i], cv.take(k)),
        covers(before, cv, k),
        forall|i: int|
            0 <= i < after.len() ==> #[trigger] after[i] == cv[k] || (before.contains(after[i]) && !same_key(
                after[i],
                cv[k],
            )),
        has_place(after, cv[k]),
        covers(after, before, before.len() as int),
    ensures
        forall|i: int| 0 <= i < after.len() ==> last_at_place(#[trigger] after[i], cv.take(k + 1)),
        covers(after, cv, k + 1),
{
    let c = cv.take(k + 1);
    assert forall|i: int| 0 <= i < after.len() implies last_at_place(#[trigger] after[i], c) by {
        if after[i] == cv[k] {
            assert(c[k] == after[i]);
        } else {
            let x = choose|x: int| 0 <= x < before.len() && before[x] == after[i];
            assert(last_at_place(before[x], cv.take(k)));
            let p = cv.take(k);
            let j = choose|j: int|
                0 <= j < p.len() && #[trigger] p[j] == before[x] && forall|m: int|
                    j < m < p.len() ==> !same_key(#[trigger] p[m], before[x]);
            assert(c[j] == after[i]);
            assert forall|m: int| j < m < c.len() implies !same_key(#[trigger] c[m], after[i]) by {
                if m < k {
                    assert(c[m] == p[m]);
                } else {
                    assert(c[m] == cv[k]);
                }
            }
        }
    }
    assert forall|j: int| 0 <= j < k + 1 implies #[trigger] has_place(after, cv[j]) by {
        if j < k {
            assert(has_place(before, cv[j]));
            lemma_covers_transfer(before, after, cv[j]);
        }
    }
}

proof fn lemma_truncated_merge(cv: Seq<OccurrenceView>, full: Seq<OccurrenceView>, rv: Seq<OccurrenceView>, max: nat)
    requires
        sorted_by_key(full),
        forall|i: int| 0 <= i < full.len() ==> last_at_place(#[trigger] full[i], cv),
        covers(full, cv, cv.len() as int),
        rv == full.take(rv.len() as int),
        rv.len() == if full.len() > max { max } else { full.len() },
    ensures
        is_merged_result(rv, cv, max),
{
    assert forall|i: int, j: int| 0 <= i < j < rv.len() implies key_less(#[trigger] rv[i], #[trigger] rv[j]) by {
        assert(full[i] == rv[i]);
        assert(full[j] == rv[j]);
    }
    assert forall|i: int| 0 <= i < rv.len() implies last_at_place(#[trigger] rv[i], cv) by {
        assert(last_at_place(full[i], cv));
        assert(full[i] == rv[i]);
    }
    assert forall|j: int| 0 <= j < cv.len() implies placed_or_beyond(rv, #[trigger] cv[j], max) by {
        assert(has_place(full, cv[j]));
        let i = choose|i: int| 0 <= i < full.len() && same_key(#[trigger] full[i], cv[j]);
        if i < rv.len() {
            assert(rv[i] == full[i]);
            assert(same_key(rv[i], cv[j]));
        } else if max > 0 {
            let last = rv.len() - 1;
            assert(key_less(full[last], full[i]));
            lemma_key_order(full[last], full[i], cv[j]);
            assert(rv.last() == full[last]);
        }
    }
}

/// The views of a list of strings.
pub open spec fn string_views(s: Seq<String>) -> Seq<Seq<char>> {
    s.map_values(|x: String| x@)
}

/// The occurrences found on disk that do not lie in an open document.
pub open spec fn kept_on_disk(disk: Seq<OccurrenceView>, open_paths: Seq<Seq<char>>) -> Seq<OccurrenceView> {
    disk.filter(|o: OccurrenceView| !open_paths.contains(o.path))
}

/// The occurrences in the texts of the first `upto` open documents, the
/// document `k` lying at `paths[k]`.
pub open spec fn documents_occurrences(
    documents: Seq<(Seq<char>, Seq<char>)>,
    paths: Seq<Seq<char>>,
    symbol: Seq<char>,
    case_sensitive: bool,
    upto: int,
) -> Seq<OccurrenceView>
    decreases upto,
{
    if upto <= 0 {
        Seq::empty()
    } else {
        documents_occurrences(documents, paths, symbol, case_sensitive, upto - 1) + text_occurrences(
            documents[upto - 1].0,
            paths[upto - 1],
            documents[upto - 1].1,
            symbol,
            case_sensitive,
        )
    }
}

/// Everything a search finds before ordering: the occurrences on disk outside
/// open documents, then the occurrences in the open documents' texts.
pub open spec fn search_candidates(
    disk: Seq<OccurrenceView>,
    documents: Seq<(Seq<char>, Seq<char>)>,
    paths: Seq<Seq<char>>,
    symbol: Seq<char>,
    case_sensitive: bool,
) -> Seq<OccurrenceView> {
    kept_on_disk(disk, paths) + documents_occurrences(
        documents,
        paths,
        symbol,
        case_sensitive,
        documents.len() as int,
    )
}

fn listed(paths: &[String], path: &String) -> (r: bool)
    ensures
        r == string_views(paths@).contains(path@),
{
    let mut i: usize = 0;
    while i < paths.len()
        invariant
            i <= paths@.len(),
            forall|k: int| 0 <= k < i ==> paths@[k]@ != path@,
        decreases paths@.len() - i,
    {
        if paths[i] == *path {
            assert(string_views(paths@)[i as int] == path@);
            return true;
        }
        i += 1;
    }
    proof {
        if string_views(paths@).contains(path@) {
            let k = choose|k: int| 0 <= k < paths@.len() && string_views(paths@)[k] == path@;
            assert(paths@[k]@ == path@);
        }
    }
    false
}

/// Searches a workspace: `root` is where files are searched and `config` holds
/// the settings.
pub struct WorkspaceSearcher {
    pub root: String,
    pub config: ServerConfig,
}

impl WorkspaceSearcher {
    /// The occurrences of `symbol` in the text of an open document.
    pub fn search_text(&self, uri: &str, path: &str, text: &str, symbol: &str) -> (r: Vec<Occurrence>)
        ensures
            occurrence_views(r@) == text_occurrences(
                uri@,
                path@,
                text@,
                symbol@,
                self.config.case_sensitive,
            ),
    {
        text_matches(uri, path, text, symbol, self.config.case_sensitive)
    }

    /// The result of a search for `symbol`: `disk` holds what the file search
    /// found, `documents` the open documents and `document_paths` where each lies.
    /// Matches on disk inside an open document give way to the document's text.
    /// The result is in key order, one occurrence per place, at most
    /// `max_results` of them; an empty symbol finds nothing.
    pub fn search(
        &self,
        symbol: &str,
        disk: &Vec<Occurrence>,
        documents: &[Document],
        document_paths: &[String],
    ) -> (r: Vec<Occurrence>)
        requires
            document_paths@.len() == documents@.len(),
        ensures
            symbol@.len() == 0 ==> r@.len() == 0,
            symbol@.len() > 0 ==> is_merged_result(
                occurrence_views(r@),
                search_candidates(
                    occurrence_views(disk@),
                    document_views(documents@),
                    string_views(document_paths@),
                    symbol@,
                    self.config.case_sensitive,
                ),
                self.config.max_results as nat,
            ),
    {
        if symbol.is_empty() {
            return Vec::new();
        }
        let ghost paths = string_views(document_paths@);
        let ghost pred = |o: OccurrenceView| !paths.contains(o.path);
        let ghost dv = occurrence_views(disk@);
        let mut all: Vec<Occurrence> = Vec::new();
        let mut i: usize = 0;
        proof {
            reveal(Seq::filter);
            assert(dv.take(0).filter(pred) =~= Seq::<OccurrenceView>::empty());
        }
        assert(occurrence_views(all@) =~= Seq::<OccurrenceView>::empty());
        while i < disk.len()
            invariant
                i <= disk@.len(),
                dv == occurrence_views(disk@),
                paths == string_views(document_paths@),
                pred == (|o: OccurrenceView| !paths.contains(o.path)),
                occurrence_views(all@) == dv.take(i as int).filter(pred),
            decreases disk@.len() - i,
        {
            let ghost before = occurrence_views(all@);
            proof {
                assert(dv.take(i + 1) =~= dv.take(i as int).push(dv[i as int]));
                dv.take(i as int).lemma_filter_push(dv[i as int], pred);
            }
            if !listed(document_paths, &disk[i].path) {
                all.push(disk[i].duplicate());
                assert(occurrence_views(all@) =~= before.push(dv[i as int]));
            }
            i += 1;
        }
        assert(dv.take(disk@.len() as int) =~= dv);
        let ghost kept = occurrence_views(all@);
        let mut k: usize = 0;
        let ghost dviews = document_views(documents@);
        assert(kept + documents_occurrences(dviews, paths, symbol@, self.config.case_sensitive, 0) =~= kept);
        while k < documents.len()
            invariant
                k <= documents@.len() == document_paths@.len(),
                paths == string_views(document_paths@),
                dviews == document_views(documents@),
                occurrence_views(all@) == kept + documents_occurrences(
                    dviews,
                    paths,
                    symbol@,
                    self.config.case_sensitive,
                    k as int,
                ),
            decreases documents@.len() - k,
        {
            let ghost before = occurrence_views(all@);
            let mut found = self.search_text(
                documents[k].uri.as_str(),
                document_paths[k].as_str(),
                documents[k].text.as_str(),
                symbol,
            );
            let ghost fv = occurrence_views(found@);
            assert(paths[k as int] == document_paths@[k as int]@);
            all.append(&mut found);
            assert(occurrence_views(all@) =~= before + fv);
            k += 1;
        }
        merge_by_key(&all, self.config.max_results)
    }
}

/// Open documents shadow the files on disk: no occurrence that a search keeps
/// from the files lies in an open document, so every result there comes from the
/// text the editor holds.
pub proof fn law_open_documents_shadow_disk(disk: Seq<OccurrenceView>, open_paths: Seq<Seq<char>>)
    ensures
        forall|i: int| 0 <= i < kept_on_disk(disk, open_paths).len() ==> !open_paths.contains(
            #[trigger] kept_on_disk(disk, open_paths)[i].path,
        ),
        forall|i: int|
            0 <= i < disk.len() && !open_paths.contains(disk[i].path) ==> kept_on_disk(disk, open_paths).contains(
                #[trigger] disk[i],
            ),
{
    let pred = |o: OccurrenceView| !open_paths.contains(o.path);
    assert forall|i: int| 0 <= i < disk.filter(pred).len() implies !open_paths.contains(
        #[trigger] disk.filter(pred)[i].path,
    ) by {
        disk.lemma_filter_pred(pred, i);
    }
    assert forall|i: int| 0 <= i < disk.len() && !open_paths.contains(disk[i].path) implies disk.filter(
        pred,
    ).contains(#[trigger] disk[i]) by {
        disk.lemma_filter_contains(pred, i);
    }
}

} // verus!
