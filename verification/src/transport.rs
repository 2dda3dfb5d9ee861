//! The framing of messages on the wire: a `Content-Length` header, a blank
//! line, and the body.
use vstd::prelude::*;
use crate::json::Json;
use crate::position::{string_from_utf8_lossy, lossy_text};
use crate::text::{chars_of, slice_of, str_equals, trim_start, whitespace, skip_whitespace, is_whitespace};
use vstd::utf8::{decode_utf8, encode_utf8, is_ascii_chars, valid_utf8};

verus! {

// ---------------------------------------------------------------------------
// Writing
// ---------------------------------------------------------------------------

/// The bytes of "Content-Length: ".
pub open spec fn length_prefix() -> Seq<u8> {
    seq![67u8, 111, 110, 116, 101, 110, 116, 45, 76, 101, 110, 103, 116, 104, 58, 32]
}

/// The decimal digits of `n`, as ASCII bytes, without leading zeros.
pub open spec fn decimal_digits(n: nat) -> Seq<u8>
    decreases n,
{
    if n < 10 {
        seq![(48 + n) as u8]
    } else {
        decimal_digits(n / 10).push((48 + n % 10) as u8)
    }
}

/// The header that frames a body of `n` bytes, with the blank line after it.
pub open spec fn frame_header(n: nat) -> Seq<u8> {
    length_prefix() + decimal_digits(n) + seq![13u8, 10, 13, 10]
}

fn push_decimal(out: &mut Vec<u8>, n: usize)
    ensures
        final(out)@ == old(out)@ + decimal_digits(n as nat),
    decreases n,
{
    if n >= 10 {
        push_decimal(out, n / 10);
    }
    let digit: u8 = (n % 10) as u8;
    out.push(48 + digit);
    proof {
        if n < 10 {
            assert(n % 10 == n);
        }
    }
    assert(final(out)@ =~= old(out)@ + decimal_digits(n as nat)) by {
        if n >= 10 {
            assert(decimal_digits(n as nat) == decimal_digits((n / 10) as nat).push((48 + n % 10) as u8));
        }
    }
}

/// The framed message for `body`: `Content-Length: N`, a blank line, the body.
pub fn frame(body: &[u8]) -> (r: Vec<u8>)
    ensures
        r@ == frame_header(body@.len()) + body@,
{
    let mut out: Vec<u8> = Vec::new();
    let prefix: [u8; 16] = [67, 111, 110, 116, 101, 110, 116, 45, 76, 101, 110, 103, 116, 104, 58, 32];
    let mut i: usize = 0;
    while i < 16
        invariant
            i <= 16,
            prefix@ == length_prefix(),
            out@ == length_prefix().take(i as int),
        decreases 16 - i,
    {
        out.push(prefix[i]);
        assert(length_prefix().take(i + 1) =~= length_prefix().take(i as int).push(prefix@[i as int]));
        i += 1;
    }
    assert(length_prefix().take(16) =~= length_prefix());
    push_decimal(&mut out, body.len());
    out.push(13);
    out.push(10);
    out.push(13);
    out.push(10);
    let ghost head = out@;
    assert(head =~= frame_header(body@.len()));
    let mut j: usize = 0;
    while j < body.len()
        invariant
            j <= body@.len(),
            out@ == head + body@.take(j as int),
        decreases body@.len() - j,
    {
        out.push(body[j]);
        assert(body@.take(j + 1) =~= body@.take(j as int).push(body@[j as int]));
        j += 1;
    }
    assert(body@.take(body@.len() as int) =~= body@);
    out
}

// ---------------------------------------------------------------------------
// Reading
// ---------------------------------------------------------------------------

/// The line that ends the header: `\r\n` or `\n`.
pub open spec fn is_blank_line_spec(line: Seq<u8>) -> bool {
    line == seq![13u8, 10] || line == seq![10u8]
}

/// Whether `line` (as read, with its line feed) ends the header.
pub fn is_blank_line(line: &[u8]) -> (r: bool)
    ensures
        r == is_blank_line_spec(line@),
{
    if line.len() == 2 {
        let r = line[0] == 13 && line[1] == 10;
        assert(r ==> line@ =~= seq![13u8, 10]);
        r
    } else if line.len() == 1 {
        let r = line[0] == 10;
        assert(r ==> line@ =~= seq![10u8]);
        r
    } else {
        false
    }
}

/// Index of the first `:` of a line.
pub open spec fn first_colon(line: Seq<u8>) -> Option<int>
    decreases line.len(),
{
    if line.len() == 0 {
        None
    } else if line[0] == 58 {
        Some(0)
    } else {
        match first_colon(line.drop_first()) {
            Some(i) => Some(i + 1),
            None => None,
        }
    }
}

proof fn lemma_first_colon(line: Seq<u8>)
    ensures
        match first_colon(line) {
            Some(i) => 0 <= i < line.len() && line[i] == 58 && forall|k: int| 0 <= k < i ==> line[k] != 58,
            None => forall|k: int| 0 <= k < line.len() ==> line[k] != 58,
        },
    decreases line.len(),
{
    if line.len() > 0 {
        lemma_first_colon(line.drop_first());
        if line[0] != 58 {
            assert forall|k: int| 0 < k < line.len() implies line[k] == line.drop_first()[k - 1] by {}
        }
    }
}

/// `s` with ASCII upper-case letters in lower case.
pub open spec fn ascii_lowercase(s: Seq<char>) -> Seq<char> {
    s.map_values(|c: char| if 'A' <= c && c <= 'Z' { ((c as u32 + 32) as u8) as char } else { c })
}

/// `s` without its trailing whitespace.
pub open spec fn trim_end(s: Seq<char>) -> Seq<char>
    decreases s.len(),
{
    if s.len() > 0 && whitespace(s.last()) {
        trim_end(s.drop_last())
    } else {
        s
    }
}

/// `s` without leading and trailing whitespace (`str::trim`).
pub open spec fn trim(s: Seq<char>) -> Seq<char> {
    trim_end(trim_start(s))
}

/// The name (in lower case) and the value (trimmed) of a header line, when it
/// has a colon.
pub open spec fn header_entry_spec(line: Seq<u8>) -> Option<(Seq<char>, Seq<char>)> {
    match first_colon(line) {
        Some(i) => Some(
            (ascii_lowercase(lossy_text(line.take(i))), trim(lossy_text(line.skip(i + 1)))),
        ),
        None => None,
    }
}

/// The value of the last header named `name`.
pub open spec fn header_value(lines: Seq<Seq<u8>>, name: Seq<char>) -> Option<Seq<char>>
    decreases lines.len(),
{
    if lines.len() == 0 {
        None
    } else {
        match header_entry_spec(lines.last()) {
            Some(entry) => if entry.0 == name {
                Some(entry.1)
            } else {
                header_value(lines.drop_last(), name)
            },
            None => header_value(lines.drop_last(), name),
        }
    }
}

/// The header name "content-length".
pub open spec fn content_length_name() -> Seq<char> {
    seq!['c', 'o', 'n', 't', 'e', 'n', 't', '-', 'l', 'e', 'n', 'g', 't', 'h']
}

/// An ASCII digit.
pub open spec fn digit_char(c: char) -> bool {
    '0' <= c && c <= '9'
}

/// Every character is an ASCII digit.
pub open spec fn all_digits(s: Seq<char>) -> bool {
    forall|i: int| 0 <= i < s.len() ==> digit_char(#[trigger] s[i])
}

/// The number that a string of ASCII digits denotes.
pub open spec fn digits_value(s: Seq<char>) -> nat
    decreases s.len(),
{
    if s.len() == 0 {
        0
    } else {
        digits_value(s.drop_last()) * 10 + (s.last() as u32 - 48) as nat
    }
}

/// `s.parse::<usize>()`: an optional `+`, then one or more ASCII digits whose
/// value fits in `usize`.
pub open spec fn parse_usize_spec(s: Seq<char>) -> Option<usize> {
    let d = if s.len() > 0 && s[0] == '+' {
        s.drop_first()
    } else {
        s
    };
    if d.len() > 0 && all_digits(d) && digits_value(d) <= usize::MAX {
        Some(digits_value(d) as usize)
    } else {
        None
    }
}

/// The body length that a message's header lines give, `None` when no valid
/// `Content-Length` is present.
pub open spec fn message_length_spec(lines: Seq<Seq<u8>>) -> Option<usize> {
    match header_value(lines, content_length_name()) {
        Some(v) => parse_usize_spec(v),
        None => None,
    }
}

proof fn lemma_digits_value_mono(s: Seq<char>, i: int)
    requires
        0 <= i <= s.len(),
        forall|k: int| 0 <= k < s.len() ==> digit_char(#[trigger] s[k]),
    ensures
        digits_value(s.take(i)) <= digits_value(s),
    decreases s.len() - i,
{
    if i < s.len() {
        lemma_digits_value_mono(s, i + 1);
        assert(s.take(i + 1).drop_last() =~= s.take(i));
        assert(digit_char(s[i]));
    } else {
        assert(s.take(i) =~= s);
    }
}

/// `s.parse::<usize>()` on the characters of a header value.
pub fn parse_usize(s: &[char]) -> (r: Option<usize>)
    ensures
        r == parse_usize_spec(s@),
{
    let start: usize = if s.len() > 0 && s[0] == '+' {
        1
    } else {
        0
    };
    let ghost d = if s@.len() > 0 && s@[0] == '+' {
        s@.drop_first()
    } else {
        s@
    };
    assert(d =~= s@.skip(start as int));
    if start >= s.len() {
        return None;
    }
    let mut value: usize = 0;
    let mut i = start;
    while i < s.len()
        invariant
            start <= i <= s@.len(),
            start < s@.len(),
            start == 0 || (start == 1 && s@[0] == '+'),
            start == 0 ==> !(s@.len() > 0 && s@[0] == '+'),
            d == s@.skip(start as int),
            d == (if s@.len() > 0 && s@[0] == '+' {
                s@.drop_first()
            } else {
                s@
            }),
            forall|k: int| start <= k < i ==> digit_char(#[trigger] s@[k]),
            value == digits_value(s@.subrange(start as int, i as int)),
        decreases s@.len() - i,
    {
        let c = s[i];
        if !('0' <= c && c <= '9') {
            assert(d[i - start] == c);
            assert(!digit_char(d[i - start]));
            return None;
        }
        let digit: usize = (c as u32 - 48) as usize;
        assert(s@.subrange(start as int, i + 1).drop_last() =~= s@.subrange(start as int, i as int));
        let m = value.checked_mul(10);
        match m {
            Some(m) => match m.checked_add(digit) {
                Some(v) => {
                    value = v;
                },
                None => {
                    return overflow_or_invalid(s, start, i);
                },
            },
            None => {
                return overflow_or_invalid(s, start, i);
            },
        }
        i += 1;
    }
    assert(s@.subrange(start as int, s@.len() as int) =~= d);
    Some(value)
}

/// The result of parsing once the prefix up to `i` (inclusive) overflows: no
/// value, whether the rest is digits or not.
fn overflow_or_invalid(s: &[char], start: usize, i: usize) -> (r: Option<usize>)
    requires
        start < s@.len(),
        start <= i < s@.len(),
        start == 0 || (start == 1 && s@[0] == '+'),
        start == 0 ==> !(s@.len() > 0 && s@[0] == '+'),
        forall|k: int| start <= k <= i ==> digit_char(#[trigger] s@[k]),
        digits_value(s@.subrange(start as int, i + 1)) > usize::MAX,
    ensures
        r == parse_usize_spec(s@),
{
    let ghost d = s@.skip(start as int);
    if start == 1 {
        assert(d =~= s@.drop_first());
    } else {
        assert(d =~= s@);
    }
    proof {
        if all_digits(d) {
            lemma_digits_value_mono(d, i + 1 - start);
            assert(d.take(i + 1 - start) =~= s@.subrange(start as int, i + 1));
        }
    }
    None
}

/// The characters of `s` in ASCII lower case (`str::to_ascii_lowercase`).
fn lowercase_chars(s: &[char]) -> (r: Vec<char>)
    ensures
        r@ == ascii_lowercase(s@),
{
    let mut r: Vec<char> = Vec::new();
    let mut i: usize = 0;
    while i < s.len()
        invariant
            i <= s@.len(),
            r@ == ascii_lowercase(s@.take(i as int)),
        decreases s@.len() - i,
    {
        let c = s[i];
        let l = if 'A' <= c && c <= 'Z' {
            ((c as u32) + 32) as u8 as char
        } else {
            c
        };
        r.push(l);
        assert(r@ =~= ascii_lowercase(s@.take(i + 1)));
        i += 1;
    }
    assert(s@.take(s@.len() as int) =~= s@);
    r
}

/// `str::trim` on characters.
fn trim_chars(s: &[char]) -> (r: Vec<char>)
    ensures
        r@ == trim(s@),
{
    let a = skip_whitespace(s, 0);
    assert(s@.skip(0) =~= s@);
    let mut b = s.len();
    assert(s@.subrange(a as int, b as int) =~= trim_start(s@));
    while b > a && is_whitespace(s[b - 1])
        invariant
            a <= b <= s@.len(),
            trim_end(s@.subrange(a as int, b as int)) == trim(s@),
        decreases b,
    {
        assert(s@.subrange(a as int, b as int).drop_last() =~= s@.subrange(a as int, b - 1));
        b -= 1;
    }
    slice_of(s, a, b)
}

/// The name and value of a header line (see `header_entry_spec`).
pub fn header_entry(line: &[u8]) -> (r: Option<(Vec<char>, Vec<char>)>)
    ensures
        match r {
            Some(e) => header_entry_spec(line@) == Some((e.0@, e.1@)),
            None => header_entry_spec(line@) is None,
        },
{
    proof {
        lemma_first_colon(line@);
    }
    let mut i: usize = 0;
    while i < line.len() && line[i] != 58
        invariant
            i <= line@.len(),
            forall|k: int| 0 <= k < i ==> line@[k] != 58,
        decreases line@.len() - i,
    {
        i += 1;
    }
    if i == line.len() {
        return None;
    }
    let mut key_bytes: Vec<u8> = Vec::new();
    let mut k: usize = 0;
    while k < i
        invariant
            k <= i < line@.len(),
            key_bytes@ == line@.take(k as int),
        decreases i - k,
    {
        key_bytes.push(line[k]);
        assert(line@.take(k + 1) =~= line@.take(k as int).push(line@[k as int]));
        k += 1;
    }
    let mut value_bytes: Vec<u8> = Vec::new();
    let mut j: usize = i + 1;
    while j < line.len()
        invariant
            i < j <= line@.len(),
            value_bytes@ == line@.subrange(i + 1, j as int),
        decreases line@.len() - j,
    {
        value_bytes.push(line[j]);
        assert(line@.subrange(i + 1, j + 1) =~= line@.subrange(i + 1, j as int).push(line@[j as int]));
        j += 1;
    }
    assert(line@.subrange(i + 1, line@.len() as int) =~= line@.skip(i + 1));
    let key = string_from_utf8_lossy(key_bytes.as_slice());
    let value = string_from_utf8_lossy(value_bytes.as_slice());
    let key_chars = chars_of(key.as_str());
    let value_chars = chars_of(value.as_str());
    Some((lowercase_chars(key_chars.as_slice()), trim_chars(value_chars.as_slice())))
}

/// The body length that the header lines give (see `message_length_spec`).
pub fn message_length(lines: &Vec<Vec<u8>>) -> (r: Option<usize>)
    ensures
        r == message_length_spec(lines@.map_values(|l: Vec<u8>| l@)),
{
    let ghost lv = lines@.map_values(|l: Vec<u8>| l@);
    let name = ['c', 'o', 'n', 't', 'e', 'n', 't', '-', 'l', 'e', 'n', 'g', 't', 'h'];
    assert(name@ =~= content_length_name());
    let mut found: Option<Vec<char>> = None;
    let mut i: usize = 0;
    assert(lv.take(0) =~= Seq::<Seq<u8>>::empty());
    while i < lines.len()
        invariant
            i <= lines@.len(),
            lv == lines@.map_values(|l: Vec<u8>| l@),
            name@ == content_length_name(),
            match found {
                Some(v) => header_value(lv.take(i as int), content_length_name()) == Some(v@),
                None => header_value(lv.take(i as int), content_length_name()) is None,
            },
        decreases lines@.len() - i,
    {
        assert(lv.take(i + 1).drop_last() =~= lv.take(i as int));
        assert(lv.take(i + 1).last() == lines@[i as int]@);
        match header_entry(lines[i].as_slice()) {
            Some((key, value)) => {
                let same = crate::text::compare_chars(key.as_slice(), name.as_slice()) == 0;
                if same {
                    found = Some(value);
                }
            },
            None => {},
        }
        i += 1;
    }
    assert(lv.take(lines@.len() as int) =~= lv);
    match found {
        Some(v) => parse_usize(v.as_slice()),
        None => None,
    }
}

// ---------------------------------------------------------------------------
// Reading back what was written
// ---------------------------------------------------------------------------

/// The header line for a body of `n` bytes, as read (with its line end).
pub open spec fn length_line(n: nat) -> Seq<u8> {
    length_prefix() + decimal_digits(n) + seq![13u8, 10]
}

/// The characters of ASCII bytes.
pub open spec fn ascii_text(b: Seq<u8>) -> Seq<char> {
    b.map_values(|x: u8| x as char)
}

proof fn lemma_ascii_bytes_decode(b: Seq<u8>)
    requires
        forall|i: int| 0 <= i < b.len() ==> #[trigger] b[i] < 128,
    ensures
        valid_utf8(b),
        decode_utf8(b) == ascii_text(b),
{
    let c = ascii_text(b);
    assert(is_ascii_chars(c)) by {
        assert forall|i: int| 0 <= i < c.len() implies '\0' <= #[trigger] c[i] <= '\u{7f}' by {
            assert(b[i] < 128);
        }
    }
    vstd::utf8::is_ascii_chars_encode_utf8(c);
    assert(encode_utf8(c) =~= b) by {
        assert forall|i: int| 0 <= i < c.len() implies encode_utf8(c)[i] == b[i] by {
            assert(c[i] as u8 == encode_utf8(c)[i]);
            assert((b[i] as char) as u8 == b[i]);
        }
    }
    vstd::utf8::encode_utf8_valid_utf8(c);
    vstd::utf8::encode_utf8_decode_utf8(c);
}

proof fn lemma_decimal_digits(n: nat)
    ensures
        decimal_digits(n).len() > 0,
        forall|i: int| 0 <= i < decimal_digits(n).len() ==> 48 <= #[trigger] decimal_digits(n)[i] <= 57,
        all_digits(ascii_text(decimal_digits(n))),
        digits_value(ascii_text(decimal_digits(n))) == n,
    decreases n,
{
    let d = decimal_digits(n);
    if n >= 10 {
        lemma_decimal_digits(n / 10);
        let prev = decimal_digits(n / 10);
        assert(d == prev.push((48 + n % 10) as u8));
        assert forall|i: int| 0 <= i < d.len() implies 48 <= #[trigger] d[i] <= 57 by {
            if i < prev.len() {
                assert(d[i] == prev[i]);
            }
        }
        let t = ascii_text(d);
        assert(t.drop_last() =~= ascii_text(prev));
        assert(t.last() == ((48 + n % 10) as u8) as char);
        assert((((48 + n % 10) as u8) as char) as u32 == 48 + n % 10);
        assert(digits_value(t) == digits_value(t.drop_last()) * 10 + (t.last() as u32 - 48) as nat);
        assert(digits_value(t.drop_last()) == n / 10);
        assert((t.last() as u32 - 48) as nat == n % 10);
        assert(n / 10 * 10 + n % 10 == n);
    } else {
        let t = ascii_text(d);
        assert(t.drop_last() =~= Seq::<char>::empty());
        assert(digits_value(t.drop_last()) == 0);
        assert((((48 + n) as u8) as char) as u32 == 48 + n);
        assert(digits_value(t) == digits_value(t.drop_last()) * 10 + (t.last() as u32 - 48) as nat);
    }
    assert forall|i: int| 0 <= i < ascii_text(d).len() implies digit_char(#[trigger] ascii_text(d)[i]) by {
        assert(48 <= d[i] <= 57);
    }
}

/// What is written is read back: the header that `frame` writes for a body of
/// `n` bytes is one header line and then the blank line; the line's name, read
/// as UTF-8 and put in lower case, is `content-length`; its value, read as
/// UTF-8 and trimmed, parses as `n`; so `message_length` gives `n` for it.
pub proof fn law_frame_read_back(n: usize)
    ensures
        message_length_spec(seq![length_line(n as nat)]) == Some(n),
        frame_header(n as nat) == length_line(n as nat) + seq![13u8, 10],
        !is_blank_line_spec(length_line(n as nat)),
        is_blank_line_spec(seq![13u8, 10]),
        first_colon(length_line(n as nat)) == Some(14int),
        valid_utf8(length_line(n as nat).take(14)),
        ascii_lowercase(decode_utf8(length_line(n as nat).take(14))) == content_length_name(),
        valid_utf8(length_line(n as nat).skip(15)),
        parse_usize_spec(trim(decode_utf8(length_line(n as nat).skip(15)))) == Some(n),
{
    let line = length_line(n as nat);
    let digits = decimal_digits(n as nat);
    lemma_decimal_digits(n as nat);
    assert(frame_header(n as nat) =~= line + seq![13u8, 10]);
    assert(line.len() == 16 + digits.len() + 2);
    // the name
    assert(line.take(14) =~= length_prefix().take(14));
    assert forall|i: int| 0 <= i < line.take(14).len() implies #[trigger] line.take(14)[i] < 128 by {}
    lemma_ascii_bytes_decode(line.take(14));
    assert(ascii_lowercase(ascii_text(line.take(14))) =~= content_length_name());
    // the colon
    lemma_first_colon(line);
    assert(line[14] == 58);
    assert forall|k: int| 0 <= k < 14 implies line[k] != 58 by {}
    // the value
    let value = line.skip(15);
    assert(value =~= seq![32u8] + digits + seq![13u8, 10]);
    assert forall|i: int| 0 <= i < value.len() implies #[trigger] value[i] < 128 by {
        if 1 <= i < 1 + digits.len() {
            assert(value[i] == digits[i - 1]);
        }
    }
    lemma_ascii_bytes_decode(value);
    let text = ascii_text(value);
    let dchars = ascii_text(digits);
    assert(text =~= seq![' '] + dchars + seq!['\r', '\n']);
    assert(text.drop_first() =~= dchars + seq!['\r', '\n']);
    assert(digit_char(dchars[0]));
    assert(trim_start(text.drop_first()) == text.drop_first());
    assert(trim_start(text) == text.drop_first());
    let t = dchars + seq!['\r', '\n'];
    let t1 = dchars + seq!['\r'];
    assert(t =~= text.drop_first());
    assert(t.last() == '\n' && whitespace('\n'));
    assert(t.drop_last() =~= t1);
    assert(trim_end(t) == trim_end(t1));
    assert(t1.last() == '\r' && whitespace('\r'));
    assert(t1.drop_last() =~= dchars);
    assert(trim_end(t1) == trim_end(dchars));
    assert(digit_char(dchars.last()));
    assert(!whitespace(dchars.last()));
    assert(trim_end(dchars) == dchars);
    assert(trim(text) == trim_end(t));
    assert(trim(text) == dchars);
    assert(!(dchars[0] == '+'));
}

// ---------------------------------------------------------------------------
// Reading a stream of messages
// ---------------------------------------------------------------------------

/// Index of the first line feed of `s`.
pub open spec fn first_line_feed(s: Seq<u8>) -> Option<int>
    decreases s.len(),
{
    if s.len() == 0 {
        None
    } else if s[0] == 10 {
        Some(0)
    } else {
        match first_line_feed(s.drop_first()) {
            Some(i) => Some(i + 1),
            None => None,
        }
    }
}

pub proof fn lemma_first_line_feed(s: Seq<u8>)
    ensures
        match first_line_feed(s) {
            Some(i) => 0 <= i < s.len() && s[i] == 10 && forall|k: int| 0 <= k < i ==> s[k] != 10,
            None => forall|k: int| 0 <= k < s.len() ==> s[k] != 10,
        },
    decreases s.len(),
{
    if s.len() > 0 {
        lemma_first_line_feed(s.drop_first());
        if s[0] != 10 {
            assert forall|k: int| 0 < k < s.len() implies s[k] == s.drop_first()[k - 1] by {}
        }
    }
}

/// The next line of a stream as `read_until(b'\n')` takes it: through the first
/// line feed, or the whole rest when there is none.
pub open spec fn next_line(s: Seq<u8>) -> Seq<u8> {
    match first_line_feed(s) {
        Some(i) => s.take(i + 1),
        None => s,
    }
}

/// The header lines at the start of `s` up to the blank line, and what follows
/// that line; `None` when the stream ends first.
pub open spec fn header_lines(s: Seq<u8>) -> Option<(Seq<Seq<u8>>, Seq<u8>)>
    decreases s.len(),
{
    if s.len() == 0 {
        None
    } else {
        let line = next_line(s);
        proof {
            lemma_first_line_feed(s);
        }
        if is_blank_line_spec(line) {
            Some((Seq::empty(), s.skip(line.len() as int)))
        } else {
            match header_lines(s.skip(line.len() as int)) {
                Some((lines, rest)) => Some((seq![line] + lines, rest)),
                None => None,
            }
        }
    }
}

/// What reading one message from a stream gives.
pub enum FrameRead {
    /// The stream ended before a complete header.
    End,
    /// The header gives no valid length, or the body is cut short.
    Invalid,
    /// The body, and the rest of the stream after it.
    Message(Seq<u8>, Seq<u8>),
}

/// Reading one message from the stream `s`: the header lines up to the blank
/// line, the length that `message_length` gives for them, then that many bytes.
pub open spec fn read_frame(s: Seq<u8>) -> FrameRead {
    match header_lines(s) {
        None => FrameRead::End,
        Some((lines, rest)) => match message_length_spec(lines) {
            Some(n) => if n <= rest.len() {
                FrameRead::Message(rest.take(n as int), rest.skip(n as int))
            } else {
                FrameRead::Invalid
            },
            None => FrameRead::Invalid,
        },
    }
}

/// The stream that `frame` writes for each of `bodies` in turn.
pub open spec fn framed(bodies: Seq<Seq<u8>>) -> Seq<u8>
    decreases bodies.len(),
{
    if bodies.len() == 0 {
        Seq::empty()
    } else {
        frame_header(bodies[0].len()) + bodies[0] + framed(bodies.drop_first())
    }
}

/// Reading `k` messages from `s` and then finding the stream's end: the bodies
/// read, or `None` when a read gives something else.
pub open spec fn read_messages(s: Seq<u8>, k: nat) -> Option<Seq<Seq<u8>>>
    decreases k,
{
    if k == 0 {
        if read_frame(s) is End {
            Some(Seq::empty())
        } else {
            None
        }
    } else {
        match read_frame(s) {
            FrameRead::Message(body, rest) => match read_messages(rest, (k - 1) as nat) {
                Some(bodies) => Some(seq![body] + bodies),
                None => None,
            },
            _ => None,
        }
    }
}

proof fn lemma_next_line_of(a: Seq<u8>, b: Seq<u8>)
    requires
        a.len() > 0,
        a.last() == 10,
        forall|k: int| 0 <= k < a.len() - 1 ==> a[k] != 10,
    ensures
        next_line(a + b) == a,
{
    let s = a + b;
    lemma_first_line_feed(s);
    assert(s[a.len() - 1] == 10);
    match first_line_feed(s) {
        Some(i) => {
            if i < a.len() - 1 {
                assert(s[i] == a[i]);
            }
            assert(i == a.len() - 1);
            assert(s.take(i + 1) =~= a);
        },
        None => {
            assert(false);
        },
    }
}

/// A framed message is read back from a stream whatever follows it: the read
/// gives the body and leaves the rest of the stream.
pub proof fn law_stream_read_back(body: Seq<u8>, rest: Seq<u8>)
    requires
        body.len() <= usize::MAX,
    ensures
        read_frame(frame_header(body.len()) + body + rest) == FrameRead::Message(body, rest),
{
    let n = body.len() as usize;
    law_frame_read_back(n);
    lemma_decimal_digits(n as nat);
    let line = length_line(n as nat);
    let digits = decimal_digits(n as nat);
    let s = frame_header(body.len()) + body + rest;
    let tail = seq![13u8, 10] + body + rest;
    assert(s =~= line + tail);
    assert forall|k: int| 0 <= k < line.len() - 1 implies line[k] != 10 by {
        if 16 <= k < 16 + digits.len() {
            assert(line[k] == digits[k - 16]);
        }
    }
    lemma_next_line_of(line, tail);
    assert(s.skip(line.len() as int) =~= tail);
    let after = body + rest;
    assert(tail =~= seq![13u8, 10] + after);
    lemma_next_line_of(seq![13u8, 10], after);
    assert(tail.skip(2) =~= after);
    assert(tail.len() > 0);
    assert(header_lines(tail) == Some((Seq::<Seq<u8>>::empty(), after)));
    assert(header_lines(s) == Some((seq![line] + Seq::<Seq<u8>>::empty(), after)));
    assert(seq![line] + Seq::<Seq<u8>>::empty() =~= seq![line]);
    assert(after.take(n as int) =~= body);
    assert(after.skip(n as int) =~= rest);
}

/// Messages written one after another are read back one by one: as many reads
/// as messages give their bodies in order, and the next read finds the end.
pub proof fn law_messages_read_back(bodies: Seq<Seq<u8>>)
    requires
        forall|i: int| 0 <= i < bodies.len() ==> #[trigger] bodies[i].len() <= usize::MAX,
    ensures
        read_messages(framed(bodies), bodies.len()) == Some(bodies),
    decreases bodies.len(),
{
    if bodies.len() == 0 {
        assert(read_frame(Seq::<u8>::empty()) is End);
    } else {
        let tail = bodies.drop_first();
        assert forall|i: int| 0 <= i < tail.len() implies #[trigger] tail[i].len() <= usize::MAX by {
            assert(tail[i] == bodies[i + 1]);
        }
        law_messages_read_back(tail);
        assert(bodies[0].len() <= usize::MAX);
        law_stream_read_back(bodies[0], framed(tail));
        assert(seq![bodies[0]] + tail =~= bodies);
    }
}

// ---------------------------------------------------------------------------
// Messages
// ---------------------------------------------------------------------------

/// `message["method"]` as text, empty when missing.
pub open spec fn message_method(message: Json) -> Seq<char> {
    match message.field("method"@) {
        Some(m) => match m.text() {
            Some(t) => t,
            None => Seq::empty(),
        },
        None => Seq::empty(),
    }
}

/// The method of a message, empty when it has none.
pub fn request_method(message: &Json) -> (r: &str)
    ensures
        r@ == message_method(*message),
{
    proof {
        reveal_strlit("");
    }
    match message.get("method") {
        Some(m) => match m.as_str() {
            Some(t) => t,
            None => "",
        },
        None => "",
    }
}

/// Whether a message is a request that expects a response: it has an `id`.
pub fn expects_response(message: &Json) -> (r: bool)
    ensures
        r == (message.field("id"@) is Some),
{
    message.get("id").is_some()
}

/// Whether the method ends the session.
pub fn ends_session(method: &str) -> (r: bool)
    ensures
        r == (method@ == "exit"@),
{
    str_equals(method, "exit")
}

} // verus!
