//! Which occurrences read as definitions, and which of them a definition
//! request answers with.
use vstd::prelude::*;
use crate::search::{match_at, is_match_at, Occurrence, OccurrenceView, occurrence_views};
use crate::text::{
    ascii_fold, chars_of, eq_ignore_ascii_case, is_alphanumeric, is_whitespace, skip_whitespace,
    slice_of, trim_start, alphanumeric, whitespace, lemma_trim_start_suffix,
};

verus! {

// ---------------------------------------------------------------------------
// Words at the start of a line
// ---------------------------------------------------------------------------

/// `a` and `b` are equal up to ASCII case.
pub open spec fn ascii_ci_eq(a: Seq<char>, b: Seq<char>) -> bool {
    a.len() == b.len() && forall|i: int| 0 <= i < a.len() ==> ascii_fold(a[i]) == ascii_fold(b[i])
}

/// `value` starts with `word` (up to ASCII case) and the word is not followed
/// by an alphanumeric character.
pub open spec fn starts_with_word_spec(value: Seq<char>, word: Seq<char>) -> bool {
    &&& word.len() <= value.len()
    &&& ascii_ci_eq(value.take(word.len() as int), word)
    &&& (value.len() > word.len() ==> !alphanumeric(value[word.len() as int]))
}

/// `value` starts with one of `words`.
pub open spec fn starts_with_any(value: Seq<char>, words: Seq<Seq<char>>) -> bool {
    exists|k: int| 0 <= k < words.len() && starts_with_word_spec(value, #[trigger] words[k])
}

/// The views of a list of words.
pub open spec fn word_views(words: Seq<Vec<char>>) -> Seq<Seq<char>> {
    words.map_values(|w: Vec<char>| w@)
}

fn ascii_ci_equal(a: &[char], b: &[char]) -> (r: bool)
    ensures
        r == ascii_ci_eq(a@, b@),
{
    if a.len() != b.len() {
        return false;
    }
    let mut i: usize = 0;
    while i < a.len()
        invariant
            a@.len() == b@.len(),
            i <= a@.len(),
            forall|k: int| 0 <= k < i ==> ascii_fold(a@[k]) == ascii_fold(b@[k]),
        decreases a@.len() - i,
    {
        if !eq_ignore_ascii_case(a[i], b[i]) {
            return false;
        }
        i += 1;
    }
    true
}

/// Whether `value[from..]` starts with `word` as a word.
fn starts_with_word_at(value: &[char], from: usize, word: &[char]) -> (r: bool)
    requires
        from <= value@.len(),
    ensures
        r == starts_with_word_spec(value@.skip(from as int), word@),
{
    let ghost rest = value@.skip(from as int);
    if value.len() - from < word.len() {
        return false;
    }
    let prefix = slice_of(value, from, from + word.len());
    assert(prefix@ =~= rest.take(word@.len() as int));
    if !ascii_ci_equal(prefix.as_slice(), word) {
        return false;
    }
    if value.len() - from > word.len() {
        assert(rest[word@.len() as int] == value@[from + word@.len()]);
        !is_alphanumeric(value[from + word.len()])
    } else {
        true
    }
}

/// Whether `value[from..]` starts with one of `words` as a word.
fn starts_with_any_at(value: &[char], from: usize, words: &Vec<Vec<char>>) -> (r: bool)
    requires
        from <= value@.len(),
    ensures
        r == starts_with_any(value@.skip(from as int), word_views(words@)),
{
    let ghost ws = word_views(words@);
    let mut k: usize = 0;
    while k < words.len()
        invariant
            from <= value@.len(),
            k <= words@.len(),
            ws == word_views(words@),
            forall|j: int| 0 <= j < k ==> !starts_with_word_spec(value@.skip(from as int), #[trigger] ws[j]),
        decreases words@.len() - k,
    {
        assert(ws[k as int] == words@[k as int]@);
        if starts_with_word_at(value, from, words[k].as_slice()) {
            return true;
        }
        k += 1;
    }
    false
}

/// `starts_with_word`: whether `value` starts with one of `words` (up to ASCII
/// case) not followed by an alphanumeric character.
pub fn starts_with_word(value: &[char], words: &Vec<Vec<char>>) -> (r: bool)
    ensures
        r == starts_with_any(value@, word_views(words@)),
{
    assert(value@.skip(0) =~= value@);
    starts_with_any_at(value, 0, words)
}

/// A list of words as character vectors.
fn word_list(words: &[&str]) -> (r: Vec<Vec<char>>)
    ensures
        word_views(r@) == words@.map_values(|w: &str| w@),
{
    let mut r: Vec<Vec<char>> = Vec::new();
    let mut i: usize = 0;
    while i < words.len()
        invariant
            i <= words@.len(),
            word_views(r@) == words@.take(i as int).map_values(|w: &str| w@),
        decreases words@.len() - i,
    {
        let ghost before = r@;
        r.push(chars_of(words[i]));
        assert(word_views(r@) =~= words@.take(i + 1).map_values(|w: &str| w@)) by {
            assert(word_views(r@) =~= word_views(before).push(words@[i as int]@));
        }
        i += 1;
    }
    assert(words@.take(words@.len() as int) =~= words@);
    r
}

/// The words that may precede a declaration keyword.
pub open spec fn modifier_words() -> Seq<Seq<char>> {
    seq![
        "export"@,
        "public"@,
        "private"@,
        "protected"@,
        "static"@,
        "async"@,
        "mut"@,
        "pub"@,
        "final"@,
        "readonly"@,
    ]
}

/// The keywords that start a declaration.
pub open spec fn declaration_words() -> Seq<Seq<char>> {
    seq![
        "def"@,
        "fn"@,
        "func"@,
        "function"@,
        "class"@,
        "struct"@,
        "enum"@,
        "interface"@,
        "trait"@,
        "type"@,
        "record"@,
        "module"@,
        "namespace"@,
        "macro"@,
        "concept"@,
        "template"@,
        "package"@,
    ]
}

/// The words that, after a term, say that the line defines it.
pub open spec fn defining_words() -> Seq<Seq<char>> {
    seq!["is"@, "means"@, "refers"@, "describes"@, "denotes"@, "stands"@]
}

fn modifier_list() -> (r: Vec<Vec<char>>)
    ensures
        word_views(r@) == modifier_words(),
{
    let words = [
        "export",
        "public",
        "private",
        "protected",
        "static",
        "async",
        "mut",
        "pub",
        "final",
        "readonly",
    ];
    let r = word_list(words.as_slice());
    assert(words@.map_values(|w: &str| w@) =~= modifier_words());
    r
}

fn declaration_list() -> (r: Vec<Vec<char>>)
    ensures
        word_views(r@) == declaration_words(),
{
    let words = [
        "def",
        "fn",
        "func",
        "function",
        "class",
        "struct",
        "enum",
        "interface",
        "trait",
        "type",
        "record",
        "module",
        "namespace",
        "macro",
        "concept",
        "template",
        "package",
    ];
    let r = word_list(words.as_slice());
    assert(words@.map_values(|w: &str| w@) =~= declaration_words());
    r
}

fn defining_list() -> (r: Vec<Vec<char>>)
    ensures
        word_views(r@) == defining_words(),
{
    let words = ["is", "means", "refers", "describes", "denotes", "stands"];
    let r = word_list(words.as_slice());
    assert(words@.map_values(|w: &str| w@) =~= defining_words());
    r
}

// ---------------------------------------------------------------------------
// Declarations
// ---------------------------------------------------------------------------

/// Index of the first whitespace character of `s`.
pub open spec fn first_whitespace(s: Seq<char>) -> Option<int>
    decreases s.len(),
{
    if s.len() == 0 {
        None
    } else if whitespace(s[0]) {
        Some(0)
    } else {
        match first_whitespace(s.drop_first()) {
            Some(i) => Some(i + 1),
            None => None,
        }
    }
}

proof fn lemma_first_whitespace(s: Seq<char>)
    ensures
        match first_whitespace(s) {
            Some(i) => 0 <= i < s.len() && whitespace(s[i]) && forall|k: int|
                0 <= k < i ==> !whitespace(s[k]),
            None => forall|k: int| 0 <= k < s.len() ==> !whitespace(s[k]),
        },
    decreases s.len(),
{
    if s.len() > 0 {
        lemma_first_whitespace(s.drop_first());
        if !whitespace(s[0]) {
            assert forall|k: int| 0 < k < s.len() implies s[k] == s.drop_first()[k - 1] by {}
        }
    }
}

proof fn lemma_first_whitespace_at(s: Seq<char>, i: int)
    requires
        0 <= i <= s.len(),
        i < s.len() ==> whitespace(s[i]),
        forall|k: int| 0 <= k < i ==> !whitespace(s[k]),
    ensures
        first_whitespace(s) == if i < s.len() {
            Some(i)
        } else {
            None::<int>
        },
{
    lemma_first_whitespace(s);
}

/// Whether `word` is one of the modifiers, up to ASCII case.
pub open spec fn is_modifier(word: Seq<char>) -> bool {
    exists|k: int| 0 <= k < modifier_words().len() && ascii_ci_eq(word, #[trigger] modifier_words()[k])
}

/// `rest` after the leading modifier words, each followed by whitespace.
pub open spec fn strip_modifiers(rest: Seq<char>) -> Seq<char>
    decreases rest.len(),
{
    match first_whitespace(rest) {
        Some(e) => if 0 < e <= rest.len() && is_modifier(rest.take(e)) {
            proof {
                lemma_trim_start_suffix(rest.skip(e));
            }
            strip_modifiers(trim_start(rest.skip(e)))
        } else {
            rest
        },
        None => rest,
    }
}

/// A line declares something: after leading whitespace and modifiers it
/// starts with a declaration keyword.
pub open spec fn declares(line: Seq<char>) -> bool {
    starts_with_any(strip_modifiers(trim_start(line)), declaration_words())
}

fn is_modifier_word(word: &[char], modifiers: &Vec<Vec<char>>) -> (r: bool)
    requires
        word_views(modifiers@) == modifier_words(),
    ensures
        r == is_modifier(word@),
{
    let mut k: usize = 0;
    while k < modifiers.len()
        invariant
            k <= modifiers@.len(),
            word_views(modifiers@) == modifier_words(),
            forall|j: int| 0 <= j < k ==> !ascii_ci_eq(word@, #[trigger] modifier_words()[j]),
        decreases modifiers@.len() - k,
    {
        assert(modifier_words()[k as int] == modifiers@[k as int]@);
        if ascii_ci_equal(word, modifiers[k].as_slice()) {
            return true;
        }
        k += 1;
    }
    false
}

/// The index where `line` continues after its leading whitespace and modifiers.
fn after_modifiers(line: &[char]) -> (start: usize)
    ensures
        start <= line@.len(),
        line@.skip(start as int) == strip_modifiers(trim_start(line@)),
{
    let modifiers = modifier_list();
    let mut start = skip_whitespace(line, 0);
    assert(line@.skip(0) =~= line@);
    loop
        invariant
            start <= line@.len(),
            word_views(modifiers@) == modifier_words(),
            strip_modifiers(line@.skip(start as int)) == strip_modifiers(trim_start(line@)),
        ensures
            start <= line@.len(),
            strip_modifiers(line@.skip(start as int)) == line@.skip(start as int),
            strip_modifiers(line@.skip(start as int)) == strip_modifiers(trim_start(line@)),
        decreases line@.len() - start,
    {
        let ghost rest = line@.skip(start as int);
        let mut end = start;
        while end < line.len() && !is_whitespace(line[end])
            invariant
                start <= end <= line@.len(),
                forall|k: int| start <= k < end ==> !whitespace(line@[k]),
            decreases line@.len() - end,
        {
            end += 1;
        }
        proof {
            assert forall|k: int| 0 <= k < end - start implies !whitespace(rest[k]) by {
                assert(rest[k] == line@[start + k]);
            }
            if end < line.len() {
                assert(rest[end - start] == line@[end as int]);
            }
            lemma_first_whitespace_at(rest, end - start);
        }
        if end == line.len() || end == start {
            break;
        }
        let word = slice_of(line, start, end);
        assert(word@ =~= rest.take(end - start));
        if !is_modifier_word(word.as_slice(), &modifiers) {
            break;
        }
        let next = skip_whitespace(line, end);
        proof {
            assert(rest.skip(end - start) =~= line@.skip(end as int));
            lemma_trim_start_suffix(rest.skip(end - start));
        }
        start = next;
    }
    start
}

proof fn lemma_trim_start_indent(indent: Seq<char>, line: Seq<char>)
    requires
        forall|i: int| 0 <= i < indent.len() ==> whitespace(#[trigger] indent[i]),
    ensures
        trim_start(indent + line) == trim_start(line),
    decreases indent.len(),
{
    if indent.len() == 0 {
        assert(indent + line =~= line);
    } else {
        assert((indent + line)[0] == indent[0]);
        assert((indent + line).drop_first() =~= indent.drop_first() + line);
        assert forall|i: int| 0 <= i < indent.drop_first().len() implies whitespace(#[trigger] indent.drop_first()[i]) by {
            assert(indent.drop_first()[i] == indent[i + 1]);
        }
        lemma_trim_start_indent(indent.drop_first(), line);
    }
}

proof fn lemma_modifier_prefix(m: Seq<char>, line: Seq<char>)
    requires
        is_modifier(m),
    ensures
        strip_modifiers(trim_start(m + seq![' '] + line)) == strip_modifiers(trim_start(line)),
{
    let k = choose|k: int| 0 <= k < modifier_words().len() && ascii_ci_eq(m, #[trigger] modifier_words()[k]);
    let w = modifier_words()[k];
    reveal_strlit("export");
    reveal_strlit("public");
    reveal_strlit("private");
    reveal_strlit("protected");
    reveal_strlit("static");
    reveal_strlit("async");
    reveal_strlit("mut");
    reveal_strlit("pub");
    reveal_strlit("final");
    reveal_strlit("readonly");
    assert(w.len() > 0 && forall|i: int| 0 <= i < w.len() ==> 'a' <= #[trigger] w[i] <= 'z');
    assert forall|i: int| 0 <= i < m.len() implies !whitespace(#[trigger] m[i]) by {
        assert(ascii_fold(m[i]) == ascii_fold(w[i]));
    }
    let t = m + seq![' '] + line;
    assert(t[0] == m[0]);
    assert(trim_start(t) == t);
    assert forall|i: int| 0 <= i < m.len() implies !whitespace(#[trigger] t[i]) by {
        assert(t[i] == m[i]);
    }
    assert(t[m.len() as int] == ' ');
    lemma_first_whitespace_at(t, m.len() as int);
    assert(t.take(m.len() as int) =~= m);
    let after = t.skip(m.len() as int);
    assert(after =~= seq![' '] + line);
    assert(after.drop_first() =~= line);
    assert(trim_start(after) == trim_start(line));
}

/// Modifiers and indentation at the start of a line are skipped: with a
/// modifier word (in any ASCII case) and a space, or with whitespace, put in
/// front of a line, it declares something, and declares a given symbol,
/// exactly when the line itself does.
pub proof fn law_declaration_prefixes(m: Seq<char>, indent: Seq<char>, line: Seq<char>, symbol: Seq<char>)
    requires
        is_modifier(m),
        forall|i: int| 0 <= i < indent.len() ==> whitespace(#[trigger] indent[i]),
    ensures
        declares(m + seq![' '] + line) == declares(line),
        declares_symbol(m + seq![' '] + line, symbol) == declares_symbol(line, symbol),
        declares(indent + line) == declares(line),
        declares_symbol(indent + line, symbol) == declares_symbol(line, symbol),
{
    lemma_modifier_prefix(m, line);
    lemma_trim_start_indent(indent, line);
}

/// Whether the line declares something (see `declares`).
pub fn declaration_keyword(line: &[char]) -> (r: bool)
    ensures
        r == declares(line@),
{
    let keywords = declaration_list();
    let start = after_modifiers(line);
    starts_with_any_at(line, start, &keywords)
}

/// `rest` (a line after its modifiers) starts with a declaration keyword whose
/// declared name, after whitespace, is `symbol`.
pub open spec fn names_declared(rest: Seq<char>, symbol: Seq<char>) -> bool {
    exists|k: int|
        0 <= k < declaration_words().len() && starts_with_word_spec(rest, #[trigger] declaration_words()[k])
            && match_at(trim_start(rest.skip(declaration_words()[k].len() as int)), symbol, false, 0)
}

/// A line declares `symbol`: after leading whitespace and modifiers it starts
/// with a declaration keyword, and the name that follows the keyword is
/// `symbol` (up to ASCII case). A line that only mentions `symbol` elsewhere,
/// as in a parameter's type, does not declare it.
pub open spec fn declares_symbol(line: Seq<char>, symbol: Seq<char>) -> bool {
    names_declared(strip_modifiers(trim_start(line)), symbol)
}

proof fn lemma_keyword_declares(k: int, name: Seq<char>, tail: Seq<char>)
    requires
        0 <= k < declaration_words().len(),
        name.len() > 0,
        ('a' <= name[0] <= 'z') || ('A' <= name[0] <= 'Z') || name[0] == '_',
        tail.len() == 0 || !(alphanumeric(tail[0]) || tail[0] == '_'),
    ensures
        declares_symbol(declaration_words()[k] + seq![' '] + name + tail, name),
{
    reveal_strlit("def");
    reveal_strlit("fn");
    reveal_strlit("func");
    reveal_strlit("function");
    reveal_strlit("class");
    reveal_strlit("struct");
    reveal_strlit("enum");
    reveal_strlit("interface");
    reveal_strlit("trait");
    reveal_strlit("type");
    reveal_strlit("record");
    reveal_strlit("module");
    reveal_strlit("namespace");
    reveal_strlit("macro");
    reveal_strlit("concept");
    reveal_strlit("template");
    reveal_strlit("package");
    reveal_strlit("export");
    reveal_strlit("public");
    reveal_strlit("private");
    reveal_strlit("protected");
    reveal_strlit("static");
    reveal_strlit("async");
    reveal_strlit("mut");
    reveal_strlit("pub");
    reveal_strlit("final");
    reveal_strlit("readonly");
    let w = declaration_words()[k];
    let line = w + seq![' '] + name + tail;
    assert(w.len() > 0 && forall|i: int| 0 <= i < w.len() ==> 'a' <= #[trigger] w[i] <= 'z');
    assert forall|m: int| 0 <= m < modifier_words().len() implies !ascii_ci_eq(w, #[trigger] modifier_words()[m]) by {
        let mw = modifier_words()[m];
        if w.len() == mw.len() {
            assert(ascii_fold(w[0]) != ascii_fold(mw[0]) || ascii_fold(w[1]) != ascii_fold(mw[1]) || ascii_fold(w[2])
                != ascii_fold(mw[2]));
        }
    }
    assert(!is_modifier(w));
    assert forall|i: int| 0 <= i < w.len() implies !whitespace(#[trigger] line[i]) by {
        assert(line[i] == w[i]);
    }
    assert(line[0] == w[0]);
    assert(trim_start(line) == line);
    assert(line[w.len() as int] == ' ');
    lemma_first_whitespace_at(line, w.len() as int);
    assert(line.take(w.len() as int) =~= w);
    assert(strip_modifiers(line) == line);
    assert(starts_with_word_spec(line, w));
    let after = line.skip(w.len() as int);
    assert(after =~= seq![' '] + (name + tail));
    assert(after.drop_first() =~= name + tail);
    assert((name + tail)[0] == name[0]);
    assert(trim_start(name + tail) == name + tail);
    assert(trim_start(after) == name + tail);
    let rest = name + tail;
    assert forall|i: int| 0 <= i < name.len() implies crate::search::chars_match(#[trigger] rest[0 + i], name[i], false) by {
        assert(rest[i] == name[i]);
    }
    if tail.len() > 0 {
        assert(rest[name.len() as int] == tail[0]);
    }
    assert(match_at(rest, name, false, 0));
    assert(names_declared(line, name));
}

/// Each declaration keyword (`def`, `fn`, `func`, `function`, `class`, `struct`,
/// `enum`, `interface`, `trait`, `type`, `record`, `module`, `namespace`,
/// `macro`, `concept`, `template`, `package`) followed by a space and a name
/// declares that name, and the line scores as a declaration, e.g.
/// `function greet(name) {` declares `greet`.
pub proof fn law_declaration_keywords(k: int, name: Seq<char>, tail: Seq<char>)
    requires
        0 <= k < 17,
        name.len() > 0,
        ('a' <= name[0] <= 'z') || ('A' <= name[0] <= 'Z') || name[0] == '_',
        tail.len() == 0 || !(alphanumeric(tail[0]) || tail[0] == '_'),
    ensures
        declares_symbol(seq!["def"@, "fn"@, "func"@, "function"@, "class"@, "struct"@, "enum"@, "interface"@, "trait"@, "type"@, "record"@, "module"@, "namespace"@, "macro"@, "concept"@, "template"@, "package"@][k] + seq![' '] + name + tail, name),
        definition_score_spec(seq!["def"@, "fn"@, "func"@, "function"@, "class"@, "struct"@, "enum"@, "interface"@, "trait"@, "type"@, "record"@, "module"@, "namespace"@, "macro"@, "concept"@, "template"@, "package"@][k] + seq![' '] + name + tail, name) == 4,
{
    assert(declaration_words() == seq!["def"@, "fn"@, "func"@, "function"@, "class"@, "struct"@, "enum"@, "interface"@, "trait"@, "type"@, "record"@, "module"@, "namespace"@, "macro"@, "concept"@, "template"@, "package"@]);
    lemma_keyword_declares(k, name, tail);
}

/// The modifier words (`export`, `public`, `private`, `protected`, `static`,
/// `async`, `mut`, `pub`, `final`, `readonly`), in any ASCII case, are skipped
/// before a declaration keyword: with one and a space in front, a line declares
/// something, and declares a given symbol, exactly when the line itself does.
pub proof fn law_modifier_words(k: int, m: Seq<char>, line: Seq<char>, symbol: Seq<char>)
    requires
        0 <= k < 10,
        ascii_ci_eq(m, seq!["export"@, "public"@, "private"@, "protected"@, "static"@, "async"@, "mut"@, "pub"@, "final"@, "readonly"@][k]),
    ensures
        declares(m + seq![' '] + line) == declares(line),
        declares_symbol(m + seq![' '] + line, symbol) == declares_symbol(line, symbol),
{
    assert(modifier_words() == seq!["export"@, "public"@, "private"@, "protected"@, "static"@, "async"@, "mut"@, "pub"@, "final"@, "readonly"@]);
    assert(is_modifier(m));
    law_declaration_prefixes(m, Seq::empty(), line, symbol);
}

proof fn lemma_leading_hashes(n: nat, rest: Seq<char>)
    requires
        rest.len() == 0 || rest[0] != '#',
    ensures
        leading_hashes(Seq::new(n, |i: int| '#') + rest) == n,
    decreases n,
{
    let line = Seq::new(n, |i: int| '#') + rest;
    if n == 0 {
        assert(line =~= rest);
    } else {
        assert(line.drop_first() =~= Seq::new((n - 1) as nat, |i: int| '#') + rest);
        lemma_leading_hashes((n - 1) as nat, rest);
    }
}

/// A Markdown heading (one to six `#`, a space, then its text) reads as a
/// definition of whatever it names: it scores at least 2.
pub proof fn law_heading_scores(n: nat, text: Seq<char>, symbol: Seq<char>)
    requires
        1 <= n <= 6,
    ensures
        definition_score_spec(Seq::new(n, |i: int| '#') + seq![' '] + text, symbol) >= 2,
{
    let line = Seq::new(n, |i: int| '#') + seq![' '] + text;
    assert(line =~= Seq::new(n, |i: int| '#') + (seq![' '] + text));
    lemma_leading_hashes(n, seq![' '] + text);
    assert(line[0] == '#');
    assert(trim_start(line) == line);
    assert(line[n as int] == ' ');
    assert(is_heading(line));
}

/// A prose definition (the term, then `is`, `means`, `refers`, `describes`,
/// `denotes` or `stands` as a word) reads as a definition of the term: it
/// scores at least 3.
pub proof fn law_prose_definition_words(k: int, symbol: Seq<char>, tail: Seq<char>)
    requires
        0 <= k < 6,
        symbol.len() > 0,
        ('a' <= symbol[0] <= 'z') || ('A' <= symbol[0] <= 'Z') || symbol[0] == '_',
        tail.len() == 0 || !alphanumeric(tail[0]),
    ensures
        definition_score_spec(symbol + seq![' '] + seq!["is"@, "means"@, "refers"@, "describes"@, "denotes"@, "stands"@][k] + tail, symbol) >= 3,
{
    assert(defining_words() == seq!["is"@, "means"@, "refers"@, "describes"@, "denotes"@, "stands"@]);
    let w = defining_words()[k];
    reveal_strlit("is");
    reveal_strlit("means");
    reveal_strlit("refers");
    reveal_strlit("describes");
    reveal_strlit("denotes");
    reveal_strlit("stands");
    let line = symbol + seq![' '] + w + tail;
    lemma_prose_line(symbol, seq![' '] + w + tail);
    let rest = trim_start(line.skip(symbol.len() as int));
    assert(line.skip(symbol.len() as int) =~= seq![' '] + (w + tail));
    assert((seq![' '] + (w + tail)).drop_first() =~= w + tail);
    assert((w + tail)[0] == w[0]);
    assert(trim_start(w + tail) == w + tail);
    assert((w + tail).take(w.len() as int) =~= w);
    if tail.len() > 0 {
        assert((w + tail)[w.len() as int] == tail[0]);
    }
    assert(starts_with_word_spec(w + tail, defining_words()[k]));
    assert(prose_definition(definition_candidate(trim_start(line)), symbol));
}

/// A term followed by `:`, `=` or `-` (after optional spaces) reads as a
/// definition of the term: it scores at least 3.
pub proof fn law_prose_definition_marks(symbol: Seq<char>, spaces: nat, mark: char, tail: Seq<char>)
    requires
        symbol.len() > 0,
        ('a' <= symbol[0] <= 'z') || ('A' <= symbol[0] <= 'Z') || symbol[0] == '_',
        mark == ':' || mark == '=' || mark == '-',
    ensures
        definition_score_spec(symbol + Seq::new(spaces, |i: int| ' ') + seq![mark] + tail, symbol) >= 3,
{
    let after = Seq::new(spaces, |i: int| ' ') + seq![mark] + tail;
    let line = symbol + after;
    assert(after[0] == (if spaces > 0 { ' ' } else { mark }));
    assert(line =~= symbol + Seq::new(spaces, |i: int| ' ') + seq![mark] + tail);
    lemma_prose_line(symbol, after);
    assert(line.skip(symbol.len() as int) =~= after);
    assert(after =~= Seq::new(spaces, |i: int| ' ') + (seq![mark] + tail));
    let pad = Seq::new(spaces, |i: int| ' ');
    assert forall|i: int| 0 <= i < pad.len() implies whitespace(#[trigger] pad[i]) by {}
    lemma_trim_start_indent(pad, seq![mark] + tail);
    assert((seq![mark] + tail)[0] == mark);
    assert(!whitespace(mark));
    assert(trim_start(seq![mark] + tail) == seq![mark] + tail);
    assert(prose_definition(definition_candidate(trim_start(line)), symbol));
}

proof fn lemma_prose_line(symbol: Seq<char>, after: Seq<char>)
    requires
        symbol.len() > 0,
        ('a' <= symbol[0] <= 'z') || ('A' <= symbol[0] <= 'Z') || symbol[0] == '_',
        after.len() > 0,
        !alphanumeric(after[0]),
        after[0] != '_',
    ensures
        trim_start(symbol + after) == symbol + after,
        definition_candidate(trim_start(symbol + after)) == symbol + after,
        match_at(symbol + after, symbol, false, 0),
{
    let line = symbol + after;
    assert(line[0] == symbol[0]);
    assert(trim_start(line) == line);
    assert forall|i: int| 0 <= i < symbol.len() implies crate::search::chars_match(#[trigger] line[0 + i], symbol[i], false) by {
        assert(line[i] == symbol[i]);
    }
    assert(line[symbol.len() as int] == after[0]);
}

/// Whether the line declares `symbol` (see `declares_symbol`).
pub fn declares_name(line: &[char], symbol: &[char]) -> (r: bool)
    ensures
        r == declares_symbol(line@, symbol@),
{
    let keywords = declaration_list();
    let start = after_modifiers(line);
    let ghost rest = line@.skip(start as int);
    let ghost ws = declaration_words();
    let mut k: usize = 0;
    while k < keywords.len()
        invariant
            start <= line@.len(),
            rest == line@.skip(start as int),
            rest == strip_modifiers(trim_start(line@)),
            k <= keywords@.len(),
            word_views(keywords@) == ws,
            ws == declaration_words(),
            forall|j: int|
                0 <= j < k ==> !(starts_with_word_spec(rest, #[trigger] ws[j]) && match_at(
                    trim_start(rest.skip(ws[j].len() as int)),
                    symbol@,
                    false,
                    0,
                )),
        decreases keywords@.len() - k,
    {
        let ghost w = ws[k as int];
        assert(w == keywords@[k as int]@);
        if starts_with_word_at(line, start, keywords[k].as_slice()) {
            let klen = keywords[k].len();
            assert(klen == w.len());
            assert(w.len() <= rest.len());
            let n = line.len();
            assert(start + klen <= n);
            let after = start + klen;
            let name_start = skip_whitespace(line, after);
            let name = slice_of(line, name_start, line.len());
            proof {
                assert(rest.skip(w.len() as int) =~= line@.skip(after as int));
                assert(name@ =~= line@.skip(name_start as int));
            }
            assert(name@ == trim_start(rest.skip(w.len() as int)));
            if is_match_at(name.as_slice(), symbol, false, 0) {
                assert(starts_with_word_spec(rest, ws[k as int]) && match_at(
                    trim_start(rest.skip(ws[k as int].len() as int)),
                    symbol@,
                    false,
                    0,
                ));
                assert(names_declared(rest, symbol@));
                return true;
            }
        }
        k += 1;
    }
    false
}

// ---------------------------------------------------------------------------
// Definition scores
// ---------------------------------------------------------------------------

/// The number of `#` characters that start `s`.
pub open spec fn leading_hashes(s: Seq<char>) -> nat
    decreases s.len(),
{
    if s.len() > 0 && s[0] == '#' {
        1 + leading_hashes(s.drop_first())
    } else {
        0
    }
}

/// A Markdown heading: one to six `#` and then whitespace.
pub open spec fn is_heading(t: Seq<char>) -> bool {
    &&& t.len() > 0 && t[0] == '#'
    &&& leading_hashes(t) <= 6
    &&& leading_hashes(t) < t.len()
    &&& whitespace(t[leading_hashes(t) as int])
}

/// The text where a prose definition's term would start: after a list marker.
pub open spec fn definition_candidate(t: Seq<char>) -> Seq<char> {
    if t.len() > 0 && (t[0] == '-' || t[0] == '*') {
        trim_start(t.drop_first())
    } else {
        t
    }
}

/// `candidate` starts with the term, followed by a defining word or by `:`,
/// `=`, an em dash or `-`.
pub open spec fn prose_definition(candidate: Seq<char>, symbol: Seq<char>) -> bool {
    &&& match_at(candidate, symbol, false, 0)
    &&& {
        let rest = trim_start(candidate.skip(symbol.len() as int));
        starts_with_any(rest, defining_words()) || (rest.len() > 0 && (rest[0] == ':' || rest[0]
            == '=' || rest[0] == '\u{2014}' || rest[0] == '-'))
    }
}

/// How strongly a line reads as the definition of `symbol`: 4 for a
/// declaration of it, 3 for a prose definition, 2 for a heading, 0 otherwise.
pub open spec fn definition_score_spec(line: Seq<char>, symbol: Seq<char>) -> nat {
    let t = trim_start(line);
    let base: nat = if declares_symbol(line, symbol) {
        4
    } else if is_heading(t) {
        2
    } else {
        0
    };
    if prose_definition(definition_candidate(t), symbol) && base < 3 {
        3
    } else {
        base
    }
}

fn score_of_line(line: &[char], symbol: &[char], defining: &Vec<Vec<char>>) -> (r: usize)
    requires
        word_views(defining@) == defining_words(),
    ensures
        r == definition_score_spec(line@, symbol@),
{
    let t0 = skip_whitespace(line, 0);
    assert(line@.skip(0) =~= line@);
    let ghost t = trim_start(line@);
    let n = line.len();
    let mut h = t0;
    while h < n && line[h] == '#'
        invariant
            t0 <= h <= n == line@.len(),
            t == line@.skip(t0 as int),
            leading_hashes(t) == (h - t0) + leading_hashes(line@.skip(h as int)),
        decreases n - h,
    {
        assert(line@.skip(h as int).drop_first() =~= line@.skip(h + 1));
        h += 1;
    }
    let hashes = h - t0;
    let heading = hashes > 0 && hashes <= 6 && h < n && is_whitespace(line[h]);
    proof {
        if h < n {
            assert(t[hashes as int] == line@[h as int]);
        }
        if t.len() > 0 {
            assert(t[0] == line@[t0 as int]);
        }
    }
    let mut score: usize = if heading {
        2
    } else {
        0
    };
    if declares_name(line, symbol) {
        score = 4;
    }
    let mut c = t0;
    if c < n && (line[c] == '-' || line[c] == '*') {
        assert(t.drop_first() =~= line@.skip(c + 1));
        c = skip_whitespace(line, c + 1);
    }
    let candidate = slice_of(line, c, n);
    assert(candidate@ =~= line@.skip(c as int));
    assert(candidate@ == definition_candidate(t));
    if is_match_at(candidate.as_slice(), symbol, false, 0) {
        let r0 = symbol.len();
        let rs = skip_whitespace(candidate.as_slice(), r0);
        let ghost rest = candidate@.skip(rs as int);
        let defined = starts_with_any_at(candidate.as_slice(), rs, defining) || (rs < candidate.len()
            && (candidate[rs] == ':' || candidate[rs] == '=' || candidate[rs] == '\u{2014}'
            || candidate[rs] == '-'));
        proof {
            if rs < candidate.len() {
                assert(rest[0] == candidate@[rs as int]);
            }
        }
        if defined && score < 3 {
            score = 3;
        }
    }
    score
}

/// The definition score of an occurrence's line.
pub fn definition_score(occurrence: &Occurrence, symbol: &str) -> (r: usize)
    ensures
        r == definition_score_spec(occurrence.line_text@, symbol@),
{
    let line = chars_of(occurrence.line_text.as_str());
    let symbol_chars = chars_of(symbol);
    let defining = defining_list();
    score_of_line(line.as_slice(), symbol_chars.as_slice(), &defining)
}

/// Whether the occurrence's line reads as a definition of `symbol`.
pub fn is_definition(occurrence: &Occurrence, symbol: &str) -> (r: bool)
    ensures
        r == (definition_score_spec(occurrence.line_text@, symbol@) > 0),
{
    definition_score(occurrence, symbol) > 0
}

/// Whether the occurrence lies in the document at canonical path `current_path`.
pub fn same_document(occurrence: &Occurrence, current_path: &str) -> (r: bool)
    ensures
        r == (occurrence.path@ == current_path@),
{
    let current = current_path.to_owned();
    occurrence.path == current
}

// ---------------------------------------------------------------------------
// Ranking
// ---------------------------------------------------------------------------

/// The definition score of an occurrence.
pub open spec fn score_of(o: OccurrenceView, symbol: Seq<char>) -> nat {
    definition_score_spec(o.line_text, symbol)
}

/// The highest score among `s`, 0 for none.
pub open spec fn best_score(s: Seq<OccurrenceView>, symbol: Seq<char>) -> nat
    decreases s.len(),
{
    if s.len() == 0 {
        0
    } else {
        let b = best_score(s.drop_last(), symbol);
        let x = score_of(s.last(), symbol);
        if x > b {
            x
        } else {
            b
        }
    }
}

/// The answer to a definition request among `occurrences`: when none reads as
/// a definition, the first occurrence (if any); otherwise the definitions in
/// the current document if there are some there, else all definitions, keeping
/// those with the best score.
pub open spec fn rank_spec(
    occurrences: Seq<OccurrenceView>,
    symbol: Seq<char>,
    current: Option<Seq<char>>,
) -> Seq<OccurrenceView> {
    let scored = occurrences.filter(|o: OccurrenceView| score_of(o, symbol) > 0);
    if scored.len() == 0 {
        occurrences.take(
            if occurrences.len() > 0 {
                1
            } else {
                0
            },
        )
    } else {
        let local = match current {
            Some(p) => scored.filter(|o: OccurrenceView| o.path == p),
            None => Seq::empty(),
        };
        let candidates = if local.len() == 0 {
            scored
        } else {
            local
        };
        let best = best_score(candidates, symbol);
        candidates.filter(|o: OccurrenceView| score_of(o, symbol) == best)
    }
}

/// The view of an optional path.
pub open spec fn opt_view(p: Option<&str>) -> Option<Seq<char>> {
    match p {
        Some(s) => Some(s@),
        None => None,
    }
}

/// The occurrences whose definition score is positive.
fn definitions_among(occurrences: &Vec<Occurrence>, symbol: &str) -> (r: Vec<Occurrence>)
    ensures
        occurrence_views(r@) == occurrence_views(occurrences@).filter(
            |o: OccurrenceView| score_of(o, symbol@) > 0,
        ),
{
    let ghost ov = occurrence_views(occurrences@);
    let ghost pred = |o: OccurrenceView| score_of(o, symbol@) > 0;
    let mut r: Vec<Occurrence> = Vec::new();
    let mut i: usize = 0;
    proof {
        reveal(Seq::filter);
    }
    assert(ov.take(0).filter(pred) =~= occurrence_views(r@));
    while i < occurrences.len()
        invariant
            i <= occurrences@.len(),
            ov == occurrence_views(occurrences@),
            pred == (|o: OccurrenceView| score_of(o, symbol@) > 0),
            occurrence_views(r@) == ov.take(i as int).filter(pred),
        decreases occurrences@.len() - i,
    {
        let ghost before = occurrence_views(r@);
        proof {
            assert(ov.take(i + 1) =~= ov.take(i as int).push(ov[i as int]));
            ov.take(i as int).lemma_filter_push(ov[i as int], pred);
        }
        if is_definition(&occurrences[i], symbol) {
            r.push(occurrences[i].duplicate());
            assert(occurrence_views(r@) =~= before.push(ov[i as int]));
        }
        i += 1;
    }
    assert(ov.take(occurrences@.len() as int) =~= ov);
    r
}

/// The occurrences that lie at `path`.
fn in_document(occurrences: &Vec<Occurrence>, path: &str) -> (r: Vec<Occurrence>)
    ensures
        occurrence_views(r@) == occurrence_views(occurrences@).filter(
            |o: OccurrenceView| o.path == path@,
        ),
{
    let ghost ov = occurrence_views(occurrences@);
    let ghost pred = |o: OccurrenceView| o.path == path@;
    let mut r: Vec<Occurrence> = Vec::new();
    let mut i: usize = 0;
    proof {
        reveal(Seq::filter);
    }
    assert(ov.take(0).filter(pred) =~= occurrence_views(r@));
    while i < occurrences.len()
        invariant
            i <= occurrences@.len(),
            ov == occurrence_views(occurrences@),
            pred == (|o: OccurrenceView| o.path == path@),
            occurrence_views(r@) == ov.take(i as int).filter(pred),
        decreases occurrences@.len() - i,
    {
        let ghost before = occurrence_views(r@);
        proof {
            assert(ov.take(i + 1) =~= ov.take(i as int).push(ov[i as int]));
            ov.take(i as int).lemma_filter_push(ov[i as int], pred);
        }
        if same_document(&occurrences[i], path) {
            r.push(occurrences[i].duplicate());
            assert(occurrence_views(r@) =~= before.push(ov[i as int]));
        }
        i += 1;
    }
    assert(ov.take(occurrences@.len() as int) =~= ov);
    r
}

/// The occurrences whose definition score is `score`.
fn with_score(occurrences: &Vec<Occurrence>, symbol: &str, score: usize) -> (r: Vec<Occurrence>)
    ensures
        occurrence_views(r@) == occurrence_views(occurrences@).filter(
            |o: OccurrenceView| score_of(o, symbol@) == score,
        ),
{
    let ghost ov = occurrence_views(occurrences@);
    let ghost pred = |o: OccurrenceView| score_of(o, symbol@) == score;
    let mut r: Vec<Occurrence> = Vec::new();
    let mut i: usize = 0;
    proof {
        reveal(Seq::filter);
    }
    assert(ov.take(0).filter(pred) =~= occurrence_views(r@));
    while i < occurrences.len()
        invariant
            i <= occurrences@.len(),
            ov == occurrence_views(occurrences@),
            pred == (|o: OccurrenceView| score_of(o, symbol@) == score),
            occurrence_views(r@) == ov.take(i as int).filter(pred),
        decreases occurrences@.len() - i,
    {
        let ghost before = occurrence_views(r@);
        proof {
            assert(ov.take(i + 1) =~= ov.take(i as int).push(ov[i as int]));
            ov.take(i as int).lemma_filter_push(ov[i as int], pred);
        }
        if definition_score(&occurrences[i], symbol) == score {
            r.push(occurrences[i].duplicate());
            assert(occurrence_views(r@) =~= before.push(ov[i as int]));
        }
        i += 1;
    }
    assert(ov.take(occurrences@.len() as int) =~= ov);
    r
}

/// The highest definition score among the occurrences.
fn highest_score(occurrences: &Vec<Occurrence>, symbol: &str) -> (r: usize)
    ensures
        r == best_score(occurrence_views(occurrences@), symbol@),
{
    let ghost ov = occurrence_views(occurrences@);
    let mut best: usize = 0;
    let mut i: usize = 0;
    assert(ov.take(0) =~= Seq::<OccurrenceView>::empty());
    while i < occurrences.len()
        invariant
            i <= occurrences@.len(),
            ov == occurrence_views(occurrences@),
            best == best_score(ov.take(i as int), symbol@),
        decreases occurrences@.len() - i,
    {
        assert(ov.take(i + 1).drop_last() =~= ov.take(i as int));
        let x = definition_score(&occurrences[i], symbol);
        if x > best {
            best = x;
        }
        i += 1;
    }
    assert(ov.take(occurrences@.len() as int) =~= ov);
    best
}

/// The definitions that answer a definition request (see `rank_spec`);
/// `current_path` is the canonical path of the requesting document.
pub fn rank_definitions(occurrences: &Vec<Occurrence>, symbol: &str, current_path: Option<&str>) -> (r: Vec<
    Occurrence,
>)
    ensures
        occurrence_views(r@) == rank_spec(occurrence_views(occurrences@), symbol@, opt_view(current_path)),
{
    let scored = definitions_among(occurrences, symbol);
    if scored.len() == 0 {
        let mut first: Vec<Occurrence> = Vec::new();
        if occurrences.len() > 0 {
            first.push(occurrences[0].duplicate());
        }
        assert(occurrence_views(first@) =~= occurrence_views(occurrences@).take(
            if occurrences@.len() > 0 {
                1
            } else {
                0
            },
        ));
        return first;
    }
    let local = match current_path {
        Some(p) => in_document(&scored, p),
        None => Vec::new(),
    };
    assert(current_path is None ==> occurrence_views(local@) =~= Seq::<OccurrenceView>::empty());
    let candidates = if local.len() == 0 {
        scored
    } else {
        local
    };
    let best = highest_score(&candidates, symbol);
    with_score(&candidates, symbol, best)
}

proof fn lemma_best_score(s: Seq<OccurrenceView>, symbol: Seq<char>)
    ensures
        forall|k: int| 0 <= k < s.len() ==> score_of(#[trigger] s[k], symbol) <= best_score(s, symbol),
        s.len() > 0 ==> exists|k: int| 0 <= k < s.len() && score_of(#[trigger] s[k], symbol) == best_score(s, symbol),
    decreases s.len(),
{
    if s.len() > 0 {
        let rest = s.drop_last();
        lemma_best_score(rest, symbol);
        assert forall|k: int| 0 <= k < s.len() implies score_of(#[trigger] s[k], symbol) <= best_score(s, symbol) by {
            if k < s.len() - 1 {
                assert(s[k] == rest[k]);
            }
        }
        if score_of(s.last(), symbol) > best_score(rest, symbol) || rest.len() == 0 {
            assert(score_of(s[s.len() - 1], symbol) == best_score(s, symbol));
        } else {
            let k = choose|k: int| 0 <= k < rest.len() && score_of(#[trigger] rest[k], symbol) == best_score(rest, symbol);
            assert(s[k] == rest[k]);
        }
    }
}

/// A definition request answers with the strongest definitions: when no
/// definition lies in the current document, nothing in the answer scores below
/// any definition anywhere; and every definition that scores at least as high
/// as every other candidate (the definitions in the current document when there
/// are some, else all definitions) is in the answer.
pub proof fn law_rank_best_definitions(occurrences: Seq<OccurrenceView>, symbol: Seq<char>, current: Option<Seq<char>>)
    ensures
        (current is None || forall|k: int|
            0 <= k < occurrences.len() ==> !((#[trigger] occurrences[k]).path == current->0 && score_of(
                occurrences[k],
                symbol,
            ) > 0)) ==> forall|j: int, i: int|
            0 <= j < occurrences.len() && 0 <= i < rank_spec(occurrences, symbol, current).len() && score_of(
                #[trigger] occurrences[j],
                symbol,
            ) > 0 ==> score_of(occurrences[j], symbol) <= score_of(
                #[trigger] rank_spec(occurrences, symbol, current)[i],
                symbol,
            ),
        forall|j: int|
            0 <= j < occurrences.len() && score_of(#[trigger] occurrences[j], symbol) > 0 && (current is None
                || occurrences[j].path == current->0 || forall|k: int|
                0 <= k < occurrences.len() ==> !((#[trigger] occurrences[k]).path == current->0 && score_of(
                    occurrences[k],
                    symbol,
                ) > 0)) && (forall|k: int|
                0 <= k < occurrences.len() && score_of(#[trigger] occurrences[k], symbol) > 0 && (current is None
                    || occurrences[k].path == current->0 || occurrences[j].path != current->0) ==> score_of(
                    occurrences[k],
                    symbol,
                ) <= score_of(occurrences[j], symbol)) ==> rank_spec(occurrences, symbol, current).contains(
                occurrences[j],
            ),
{
    broadcast use vstd::seq_lib::group_filter_ensures, vstd::seq::Seq::lemma_filter_contains_rev;
    let defining = |o: OccurrenceView| score_of(o, symbol) > 0;
    let scored = occurrences.filter(defining);
    let r = rank_spec(occurrences, symbol, current);
    if scored.len() > 0 {
        let local = match current {
            Some(p) => scored.filter(|o: OccurrenceView| o.path == p),
            None => Seq::empty(),
        };
        let candidates = if local.len() == 0 {
            scored
        } else {
            local
        };
        let best = best_score(candidates, symbol);
        let keep = |o: OccurrenceView| score_of(o, symbol) == best;
        assert(r == candidates.filter(keep));
        lemma_best_score(candidates, symbol);
        // the members of `local` are the definitions in the current document
        assert forall|k: int| 0 <= k < local.len() implies occurrences.contains(#[trigger] local[k]) && score_of(local[k], symbol) > 0 && current is Some && local[k].path == current->0 by {
            let p = current->0;
            assert(local.contains(local[k]));
            assert(scored.contains(local[k]));
        }
        assert forall|i: int| 0 <= i < r.len() implies score_of(#[trigger] r[i], symbol) == best by {
            assert(candidates.filter(keep).contains(r[i]));
        }
        if current is None || forall|k: int|
            0 <= k < occurrences.len() ==> !((#[trigger] occurrences[k]).path == current->0 && score_of(
                occurrences[k],
                symbol,
            ) > 0) {
            if local.len() > 0 {
                let x = choose|x: int| 0 <= x < occurrences.len() && occurrences[x] == local[0];
                assert(occurrences[x].path == current->0);
            }
            assert(candidates == scored);
            assert forall|j: int, i: int|
                0 <= j < occurrences.len() && 0 <= i < r.len() && score_of(#[trigger] occurrences[j], symbol) > 0
                    implies score_of(occurrences[j], symbol) <= score_of(#[trigger] r[i], symbol) by {
                assert(scored.contains(occurrences[j]));
                let x = choose|x: int| 0 <= x < scored.len() && scored[x] == occurrences[j];
                assert(score_of(scored[x], symbol) <= best);
            }
        }
        assert forall|j: int|
            0 <= j < occurrences.len() && score_of(#[trigger] occurrences[j], symbol) > 0 && (current is None
                || occurrences[j].path == current->0 || forall|k: int|
                0 <= k < occurrences.len() ==> !((#[trigger] occurrences[k]).path == current->0 && score_of(
                    occurrences[k],
                    symbol,
                ) > 0)) && (forall|k: int|
                0 <= k < occurrences.len() && score_of(#[trigger] occurrences[k], symbol) > 0 && (current is None
                    || occurrences[k].path == current->0 || occurrences[j].path != current->0) ==> score_of(
                    occurrences[k],
                    symbol,
                ) <= score_of(occurrences[j], symbol)) implies r.contains(occurrences[j]) by {
            assert(scored.contains(occurrences[j]));
            let w = choose|w: int| 0 <= w < candidates.len() && score_of(#[trigger] candidates[w], symbol) == best;
            let cw = candidates[w];
            if local.len() == 0 {
                assert(scored.contains(cw));
                let y = choose|y: int| 0 <= y < occurrences.len() && occurrences[y] == cw;
                if current is Some && occurrences[j].path == current->0 {
                    let p = current->0;
                    assert(scored.filter(|o: OccurrenceView| o.path == p).contains(occurrences[j]));
                    assert(false);
                }
                assert(score_of(occurrences[y], symbol) <= score_of(occurrences[j], symbol));
                assert(candidates.contains(occurrences[j]));
            } else {
                let p = current->0;
                assert(occurrences.contains(cw));
                let y = choose|y: int| 0 <= y < occurrences.len() && occurrences[y] == cw;
                assert(occurrences[y].path == p);
                if occurrences[j].path != p {
                    // a local definition exists, so `j` qualifies only through its own path
                    assert(occurrences.contains(local[0]));
                    let z = choose|z: int| 0 <= z < occurrences.len() && occurrences[z] == local[0];
                    assert(occurrences[z].path == p && score_of(occurrences[z], symbol) > 0);
                    assert(false);
                }
                assert(score_of(occurrences[y], symbol) <= score_of(occurrences[j], symbol));
                assert(local.contains(occurrences[j]));
            }
            lemma_best_score(candidates, symbol);
            assert(candidates.filter(keep).contains(occurrences[j]));
        }
    } else {
        assert forall|j: int| 0 <= j < occurrences.len() implies score_of(#[trigger] occurrences[j], symbol) == 0 by {
            if score_of(occurrences[j], symbol) > 0 {
                assert(scored.contains(occurrences[j]));
            }
        }
    }
}

/// What a definition request answers with, among `occurrences`: only
/// occurrences from the list; when some of them read as definitions, only
/// definitions, at least one; when one of them lies in the current document,
/// only definitions there, none scoring below another definition there; and
/// when none reads as a definition, just the first occurrence.
pub proof fn law_rank_definitions(occurrences: Seq<OccurrenceView>, symbol: Seq<char>, current: Option<Seq<char>>)
    ensures
        forall|i: int|
            0 <= i < rank_spec(occurrences, symbol, current).len() ==> occurrences.contains(
                #[trigger] rank_spec(occurrences, symbol, current)[i],
            ),
        (exists|j: int| 0 <= j < occurrences.len() && score_of(#[trigger] occurrences[j], symbol) > 0) ==> {
            &&& rank_spec(occurrences, symbol, current).len() > 0
            &&& forall|i: int|
                0 <= i < rank_spec(occurrences, symbol, current).len() ==> score_of(
                    #[trigger] rank_spec(occurrences, symbol, current)[i],
                    symbol,
                ) > 0
        },
        forall|j: int|
            current is Some && 0 <= j < occurrences.len() && occurrences[j].path == current->0 && score_of(
                #[trigger] occurrences[j],
                symbol,
            ) > 0 ==> forall|i: int|
                0 <= i < rank_spec(occurrences, symbol, current).len() ==> {
                    &&& (#[trigger] rank_spec(occurrences, symbol, current)[i]).path == current->0
                    &&& score_of(occurrences[j], symbol) <= score_of(rank_spec(occurrences, symbol, current)[i], symbol)
                },
        (forall|j: int| 0 <= j < occurrences.len() ==> score_of(#[trigger] occurrences[j], symbol) == 0)
            ==> rank_spec(occurrences, symbol, current) == occurrences.take(
            if occurrences.len() > 0 {
                1
            } else {
                0
            },
        ),
{
    broadcast use vstd::seq_lib::group_filter_ensures, vstd::seq::Seq::lemma_filter_contains_rev;
    let defining = |o: OccurrenceView| score_of(o, symbol) > 0;
    let scored = occurrences.filter(defining);
    let r = rank_spec(occurrences, symbol, current);
    if scored.len() == 0 {
        assert forall|j: int| 0 <= j < occurrences.len() implies score_of(#[trigger] occurrences[j], symbol) == 0 by {
            if score_of(occurrences[j], symbol) > 0 {
                assert(scored.contains(occurrences[j]));
            }
        }
        assert forall|i: int| 0 <= i < r.len() implies occurrences.contains(#[trigger] r[i]) by {
            assert(r[i] == occurrences[i]);
        }
    } else {
        let local = match current {
            Some(p) => scored.filter(|o: OccurrenceView| o.path == p),
            None => Seq::empty(),
        };
        let candidates = if local.len() == 0 {
            scored
        } else {
            local
        };
        let best = best_score(candidates, symbol);
        let keep = |o: OccurrenceView| score_of(o, symbol) == best;
        assert(r == candidates.filter(keep));
        // every candidate is a definition from the list
        assert forall|k: int| 0 <= k < candidates.len() implies occurrences.contains(#[trigger] candidates[k]) && score_of(
            candidates[k],
            symbol,
        ) > 0 by {
            if local.len() == 0 {
                assert(scored.contains(scored[k]));
            } else {
                let p = current->0;
                assert(local.contains(local[k]));
                assert(scored.contains(local[k]));
            }
        }
        lemma_best_score(candidates, symbol);
        let w = choose|k: int| 0 <= k < candidates.len() && score_of(#[trigger] candidates[k], symbol) == best;
        assert(r.contains(candidates[w]));
        assert forall|i: int| 0 <= i < r.len() implies occurrences.contains(#[trigger] r[i]) && score_of(r[i], symbol)
            > 0 by {
            assert(candidates.filter(keep).contains(r[i]));
        }
        assert forall|j: int|
            current is Some && 0 <= j < occurrences.len() && occurrences[j].path == current->0 && score_of(
                #[trigger] occurrences[j],
                symbol,
            ) > 0 implies forall|i: int|
                0 <= i < r.len() ==> {
                    &&& (#[trigger] r[i]).path == current->0
                    &&& score_of(occurrences[j], symbol) <= score_of(r[i], symbol)
                } by {
            let p = current->0;
            let in_doc = |o: OccurrenceView| o.path == p;
            assert(scored.contains(occurrences[j]));
            let x = choose|x: int| 0 <= x < scored.len() && scored[x] == occurrences[j];
            assert(local.contains(scored[x]));
            let y = choose|y: int| 0 <= y < local.len() && local[y] == occurrences[j];
            assert forall|i: int| 0 <= i < r.len() implies (#[trigger] r[i]).path == p && score_of(occurrences[j], symbol)
                <= score_of(r[i], symbol) by {
                assert(score_of(local[y], symbol) <= best);
                assert(candidates.filter(keep).contains(r[i]));
                let z = choose|z: int| 0 <= z < candidates.len() && candidates[z] == r[i];
                assert(local.contains(local[z]));
            }
        }
    }
}

} // verus!
