//! URIs and paths, UTF-16 positions, lines and the symbol under a cursor.
use vstd::prelude::*;
use vstd::string::StringSliceAdditionalSpecFns;
use vstd::utf8::{decode_utf8, encode_utf8, is_ascii_chars, valid_utf8};
use crate::json::Json;
use crate::text::{chars_of, is_alphanumeric, is_whitespace, slice_of, alphanumeric, whitespace, string_from_chars, utf16_len, utf16_width, utf16_width_of, utf8_len, utf8_width_of, lemma_utf16_len_push, lemma_utf16_len_take_mono, lemma_utf8_len_encoding, lemma_utf8_len_push, lemma_utf8_len_take_mono};

verus! {

// ---------------------------------------------------------------------------
// Percent-encoding of file URIs
// ---------------------------------------------------------------------------

/// The value of an ASCII hexadecimal digit.
pub open spec fn hex_digit(b: u8) -> Option<u8> {
    if 48 <= b && b <= 57 {
        Some((b - 48) as u8)
    } else if 97 <= b && b <= 102 {
        Some((b - 87) as u8)
    } else if 65 <= b && b <= 70 {
        Some((b - 55) as u8)
    } else {
        None
    }
}

/// Bytes with every `%XY` (two hexadecimal digits) replaced by the byte it denotes.
pub open spec fn percent_decoded(b: Seq<u8>) -> Seq<u8>
    decreases b.len(),
{
    if b.len() == 0 {
        b
    } else if b[0] == 37 && 2 < b.len() && hex_digit(b[1]) is Some && hex_digit(b[2]) is Some {
        seq![(hex_digit(b[1])->0 * 16 + hex_digit(b[2])->0) as u8] + percent_decoded(b.skip(3))
    } else {
        seq![b[0]] + percent_decoded(b.drop_first())
    }
}

/// What `String::from_utf8_lossy` makes of a byte sequence.
pub uninterp spec fn utf8_lossy(bytes: Seq<u8>) -> Seq<char>;

/// The text that `String::from_utf8_lossy` reads from `bytes`: valid UTF-8 as
/// it stands, anything else as `utf8_lossy` names it.
pub open spec fn lossy_text(bytes: Seq<u8>) -> Seq<char> {
    if valid_utf8(bytes) {
        decode_utf8(bytes)
    } else {
        utf8_lossy(bytes)
    }
}

/// `String::from_utf8_lossy` from std: decodes the bytes as UTF-8, replacing
/// invalid sequences with U+FFFD. The contract names the result as a function of
/// the bytes and states that valid UTF-8 is decoded as it stands; how invalid
/// sequences are replaced is not restated.
#[verifier::external_body]
pub(crate) fn string_from_utf8_lossy(bytes: &[u8]) -> (s: String)
    ensures
        s@ == utf8_lossy(bytes@),
        valid_utf8(bytes@) ==> s@ == decode_utf8(bytes@),
{
    String::from_utf8_lossy(bytes).into_owned()
}

fn hex_value(value: u8) -> (r: Option<u8>)
    ensures
        r == hex_digit(value),
{
    if value >= 48 && value <= 57 {
        Some(value - 48)
    } else if value >= 97 && value <= 102 {
        Some(value - 87)
    } else if value >= 65 && value <= 70 {
        Some(value - 55)
    } else {
        None
    }
}

/// Percent-decodes `bytes[from..]`.
fn percent_decode_bytes(bytes: &[u8], from: usize) -> (out: Vec<u8>)
    requires
        from <= bytes@.len(),
    ensures
        out@ == percent_decoded(bytes@.skip(from as int)),
{
    let mut decoded: Vec<u8> = Vec::new();
    let mut index = from;
    while index < bytes.len()
        invariant
            from <= index <= bytes@.len(),
            decoded@ + percent_decoded(bytes@.skip(index as int)) == percent_decoded(
                bytes@.skip(from as int),
            ),
        decreases bytes@.len() - index,
    {
        let rest = Ghost(bytes@.skip(index as int));
        if bytes[index] == 37 && bytes.len() - index > 2 {
            let high = hex_value(bytes[index + 1]);
            let low = hex_value(bytes[index + 2]);
            if let (Some(h), Some(l)) = (high, low) {
                let byte: u8 = h * 16 + l;
                assert(rest@.skip(3) =~= bytes@.skip(index + 3));
                assert(decoded@.push(byte) + percent_decoded(bytes@.skip(index + 3)) =~= decoded@
                    + percent_decoded(rest@));
                decoded.push(byte);
                index += 3;
                continue;
            }
        }
        assert(rest@.drop_first() =~= bytes@.skip(index + 1));
        assert(decoded@.push(bytes@[index as int]) + percent_decoded(bytes@.skip(index + 1))
            =~= decoded@ + percent_decoded(rest@));
        decoded.push(bytes[index]);
        index += 1;
    }
    assert(percent_decoded(bytes@.skip(index as int)) =~= Seq::<u8>::empty());
    assert(decoded@ + Seq::<u8>::empty() =~= decoded@);
    decoded
}

/// Percent-decodes `value` and reads the bytes as UTF-8, replacing invalid sequences.
pub fn percent_decode(value: &str) -> (r: String)
    ensures
        r@ == lossy_text(percent_decoded(value.spec_bytes())),
        valid_utf8(percent_decoded(value.spec_bytes())) ==> r@ == decode_utf8(
            percent_decoded(value.spec_bytes()),
        ),
{
    let bytes = value.as_bytes();
    let decoded = percent_decode_bytes(bytes, 0);
    assert(bytes@.skip(0) =~= bytes@);
    string_from_utf8_lossy(decoded.as_slice())
}

/// The bytes of "file://".
pub open spec fn file_scheme_bytes() -> Seq<u8> {
    seq![102u8, 105, 108, 101, 58, 47, 47]
}

/// The characters of "file://".
pub open spec fn file_scheme_chars() -> Seq<char> {
    seq!['f', 'i', 'l', 'e', ':', '/', '/']
}

/// The bytes of "localhost".
pub open spec fn localhost_bytes() -> Seq<u8> {
    seq![108u8, 111, 99, 97, 108, 104, 111, 115, 116]
}

pub open spec fn has_prefix(b: Seq<u8>, p: Seq<u8>) -> bool {
    p.len() <= b.len() && b.take(p.len() as int) == p
}

/// The part of a URI's bytes that names a path: "file://" and then "localhost"
/// are removed when present; any other text is a path already.
pub open spec fn uri_path_bytes(b: Seq<u8>) -> Seq<u8> {
    if has_prefix(b, file_scheme_bytes()) {
        let rest = b.skip(7);
        if has_prefix(rest, localhost_bytes()) {
            rest.skip(9)
        } else {
            rest
        }
    } else {
        b
    }
}

fn has_prefix_at(bytes: &[u8], from: usize, prefix: &[u8]) -> (r: bool)
    requires
        from <= bytes@.len(),
    ensures
        r == has_prefix(bytes@.skip(from as int), prefix@),
{
    if bytes.len() - from < prefix.len() {
        return false;
    }
    let n = bytes.len();
    let mut i: usize = 0;
    while i < prefix.len()
        invariant
            n == bytes@.len(),
            from + prefix@.len() <= n,
            i <= prefix@.len(),
            forall|k: int| 0 <= k < i ==> bytes@[from + k] == prefix@[k],
        decreases prefix@.len() - i,
    {
        if bytes[from + i] != prefix[i] {
            assert(bytes@.skip(from as int).take(prefix@.len() as int)[i as int] != prefix@[i as int]);
            return false;
        }
        i += 1;
    }
    assert(bytes@.skip(from as int).take(prefix@.len() as int) =~= prefix@);
    true
}

/// The file-system path that a URI names, before it is made absolute and
/// canonical: `file://` and then `localhost` are removed where present and the
/// rest is percent-decoded.
pub fn path_from_uri(uri: &str) -> (r: String)
    ensures
        r@ == path_of_uri(uri@),
        valid_utf8(percent_decoded(uri_path_bytes(uri.spec_bytes()))) ==> r@ == decode_utf8(
            percent_decoded(uri_path_bytes(uri.spec_bytes())),
        ),
{
    let bytes = uri.as_bytes();
    let scheme: [u8; 7] = [102, 105, 108, 101, 58, 47, 47];
    let host: [u8; 9] = [108, 111, 99, 97, 108, 104, 111, 115, 116];
    assert(scheme@ =~= file_scheme_bytes());
    assert(host@ =~= localhost_bytes());
    let mut start: usize = 0;
    assert(bytes@.skip(0) =~= bytes@);
    if has_prefix_at(bytes, 0, scheme.as_slice()) {
        start = 7;
        if has_prefix_at(bytes, 7, host.as_slice()) {
            assert(bytes@.skip(7).skip(9) =~= bytes@.skip(16));
            start = 16;
        }
    }
    let decoded = percent_decode_bytes(bytes, start);
    string_from_utf8_lossy(decoded.as_slice())
}

/// Bytes kept as they are in a file URI.
pub open spec fn unreserved(b: u8) -> bool {
    (48 <= b && b <= 57) || (65 <= b && b <= 90) || (97 <= b && b <= 122) || b == 45 || b == 46
        || b == 95 || b == 126 || b == 47 || b == 58
}

/// The upper-case hexadecimal digit of `n < 16`.
pub open spec fn hex_upper(n: u8) -> char {
    if n < 10 {
        (48 + n) as char
    } else {
        (55 + n) as char
    }
}

/// How one byte of a path appears in a file URI.
pub open spec fn encode_byte(b: u8) -> Seq<char> {
    if unreserved(b) {
        seq![b as char]
    } else {
        seq!['%', hex_upper(b / 16), hex_upper(b % 16)]
    }
}

/// The percent-encoding of a path's bytes.
pub open spec fn percent_encoded(b: Seq<u8>) -> Seq<char>
    decreases b.len(),
{
    if b.len() == 0 {
        Seq::empty()
    } else {
        encode_byte(b[0]) + percent_encoded(b.drop_first())
    }
}

fn hex_upper_of(n: u8) -> (c: char)
    requires
        n < 16,
    ensures
        c == hex_upper(n),
{
    if n < 10 {
        (48 + n) as char
    } else {
        (55 + n) as char
    }
}

fn is_unreserved(b: u8) -> (r: bool)
    ensures
        r == unreserved(b),
{
    (b >= 48 && b <= 57) || (b >= 65 && b <= 90) || (b >= 97 && b <= 122) || b == 45 || b == 46
        || b == 95 || b == 126 || b == 47 || b == 58
}

/// Appends the percent-encoding of `path`'s bytes to `out`.
fn push_percent_encoded(out: &mut Vec<char>, path: &str)
    ensures
        final(out)@ == old(out)@ + percent_encoded(path.spec_bytes()),
{
    let bytes = path.as_bytes();
    let ghost start = out@;
    let mut i: usize = 0;
    assert(bytes@.skip(0) =~= bytes@);
    while i < bytes.len()
        invariant
            i <= bytes@.len(),
            bytes@ == path.spec_bytes(),
            out@ + percent_encoded(bytes@.skip(i as int)) == start + percent_encoded(bytes@),
        decreases bytes@.len() - i,
    {
        let b = bytes[i];
        let ghost before = out@;
        assert(bytes@.skip(i as int).drop_first() =~= bytes@.skip(i + 1));
        assert(percent_encoded(bytes@.skip(i as int)) == encode_byte(b) + percent_encoded(
            bytes@.skip(i + 1),
        ));
        if is_unreserved(b) {
            out.push(b as char);
            assert(out@ =~= before + encode_byte(b));
        } else {
            out.push('%');
            out.push(hex_upper_of(b / 16));
            out.push(hex_upper_of(b % 16));
            assert(out@ =~= before + encode_byte(b));
        }
        assert(out@ + percent_encoded(bytes@.skip(i + 1)) =~= before + percent_encoded(
            bytes@.skip(i as int),
        ));
        i += 1;
    }
    assert(bytes@.skip(i as int) =~= Seq::<u8>::empty());
    assert(out@ + Seq::<char>::empty() =~= out@);
}

/// The percent-encoding of a path, as it stands in a file URI.
pub fn percent_encode_path(path: &str) -> (r: String)
    ensures
        r@ == percent_encoded(path.spec_bytes()),
{
    let mut out: Vec<char> = Vec::new();
    push_percent_encoded(&mut out, path);
    assert(Seq::<char>::empty() + percent_encoded(path.spec_bytes()) =~= percent_encoded(
        path.spec_bytes(),
    ));
    string_from_chars(out.as_slice())
}

/// The file URI of a path that the caller has made absolute and canonical.
pub fn uri_from_path(path: &str) -> (r: String)
    ensures
        r@ == file_scheme_chars() + percent_encoded(path.spec_bytes()),
{
    let mut out: Vec<char> = Vec::new();
    out.push('f');
    out.push('i');
    out.push('l');
    out.push('e');
    out.push(':');
    out.push('/');
    out.push('/');
    assert(out@ =~= file_scheme_chars());
    push_percent_encoded(&mut out, path);
    string_from_chars(out.as_slice())
}

/// The path that a URI names, before it is made absolute and canonical: what
/// `path_from_uri` returns.
pub open spec fn path_of_uri(uri: Seq<char>) -> Seq<char> {
    lossy_text(percent_decoded(uri_path_bytes(encode_utf8(uri))))
}

proof fn lemma_encode_byte_ascii(b: u8)
    ensures
        is_ascii_chars(encode_byte(b)),
{
    assert(b / 16 < 16 && b % 16 < 16);
}

proof fn lemma_percent_encoded_ascii(b: Seq<u8>)
    ensures
        is_ascii_chars(percent_encoded(b)),
    decreases b.len(),
{
    if b.len() > 0 {
        lemma_encode_byte_ascii(b[0]);
        lemma_percent_encoded_ascii(b.drop_first());
        let e = encode_byte(b[0]);
        let rest = percent_encoded(b.drop_first());
        assert forall|i: int| 0 <= i < (e + rest).len() implies '\0' <= #[trigger] (e + rest)[i] <= '\u{7f}' by {
            if i < e.len() {
                assert((e + rest)[i] == e[i]);
            } else {
                assert((e + rest)[i] == rest[i - e.len()]);
            }
        }
    }
}

proof fn lemma_ascii_encoding(chars: Seq<char>)
    requires
        is_ascii_chars(chars),
    ensures
        encode_utf8(chars) == chars.map_values(|c: char| c as u8),
{
    vstd::utf8::is_ascii_chars_encode_utf8(chars);
    assert(encode_utf8(chars) =~= chars.map_values(|c: char| c as u8));
}

/// The bytes of the percent-encoding of `b`.
pub open spec fn encoded_bytes(b: Seq<u8>) -> Seq<u8> {
    percent_encoded(b).map_values(|c: char| c as u8)
}

proof fn lemma_hex_round_trip(n: u8)
    requires
        n < 16,
    ensures
        hex_digit(hex_upper(n) as u8) == Some(n),
{
}

proof fn lemma_decode_encoded(b: Seq<u8>)
    ensures
        percent_decoded(encoded_bytes(b)) == b,
    decreases b.len(),
{
    if b.len() == 0 {
        assert(encoded_bytes(b) =~= Seq::<u8>::empty());
    } else {
        let e = encode_byte(b[0]).map_values(|c: char| c as u8);
        let rest = encoded_bytes(b.drop_first());
        assert(encoded_bytes(b) =~= e + rest);
        lemma_decode_encoded(b.drop_first());
        if unreserved(b[0]) {
            assert(e =~= seq![b[0]]);
            assert((e + rest)[0] == b[0]);
            assert((e + rest).drop_first() =~= rest);
        } else {
            lemma_hex_round_trip(b[0] / 16);
            lemma_hex_round_trip(b[0] % 16);
            assert(e =~= seq![37u8, hex_upper(b[0] / 16) as u8, hex_upper(b[0] % 16) as u8]);
            assert((e + rest).skip(3) =~= rest);
            assert((b[0] / 16 * 16 + b[0] % 16) as u8 == b[0]);
        }
        assert(seq![b[0]] + b.drop_first() =~= b);
    }
}

/// How a path byte appears in a file URI: ASCII letters and digits and the
/// characters `-`, `.`, `_`, `~`, `/` and `:` as themselves, any other byte as
/// `%` and its value in two upper-case hexadecimal digits; the encoding of a
/// byte sequence is that of its bytes in turn.
pub proof fn law_percent_encoding(b: u8, rest: Seq<u8>)
    ensures
        percent_encoded(seq![b] + rest) == (if ('0' as u8 <= b <= '9' as u8) || ('A' as u8 <= b <= 'Z' as u8) || (
        'a' as u8 <= b <= 'z' as u8) || b == '-' as u8 || b == '.' as u8 || b == '_' as u8 || b == '~' as u8 || b
            == '/' as u8 || b == ':' as u8 {
            seq![b as char]
        } else {
            seq!['%', "0123456789ABCDEF"@[(b / 16) as int], "0123456789ABCDEF"@[(b % 16) as int]]
        }) + percent_encoded(rest),
{
    reveal_strlit("0123456789ABCDEF");
    let s = seq![b] + rest;
    assert(s[0] == b);
    assert(s.drop_first() =~= rest);
    let hi = b / 16;
    let lo = b % 16;
    assert(hi < 16 && lo < 16);
    assert(hex_upper(hi) == "0123456789ABCDEF"@[hi as int]) by {
        assert(hi == 0 || hi == 1 || hi == 2 || hi == 3 || hi == 4 || hi == 5 || hi == 6 || hi == 7 || hi == 8 || hi
            == 9 || hi == 10 || hi == 11 || hi == 12 || hi == 13 || hi == 14 || hi == 15);
    }
    assert(hex_upper(lo) == "0123456789ABCDEF"@[lo as int]) by {
        assert(lo == 0 || lo == 1 || lo == 2 || lo == 3 || lo == 4 || lo == 5 || lo == 6 || lo == 7 || lo == 8 || lo
            == 9 || lo == 10 || lo == 11 || lo == 12 || lo == 13 || lo == 14 || lo == 15);
    }
}

/// Percent-encoding loses nothing: decoding the encoding of any string's bytes
/// gives those bytes back, read as the string itself, so `percent_decode` of
/// `percent_encode_path(s)` is `s`.
pub proof fn law_percent_round_trip(s: Seq<char>)
    ensures
        percent_decoded(encode_utf8(percent_encoded(encode_utf8(s)))) == encode_utf8(s),
        lossy_text(percent_decoded(encode_utf8(percent_encoded(encode_utf8(s))))) == s,
        valid_utf8(encode_utf8(s)),
        decode_utf8(encode_utf8(s)) == s,
{
    let b = encode_utf8(s);
    lemma_percent_encoded_ascii(b);
    lemma_ascii_encoding(percent_encoded(b));
    assert(encode_utf8(percent_encoded(b)) == encoded_bytes(b));
    lemma_decode_encoded(b);
    vstd::utf8::encode_utf8_valid_utf8(s);
    vstd::utf8::encode_utf8_decode_utf8(s);
}

/// A `localhost` host names the local machine: after `file://localhost`, as
/// after `file://`, a path that begins with `/` is taken as it stands.
pub proof fn law_localhost_host_ignored(rest: Seq<u8>)
    requires
        rest.len() > 0,
        rest[0] == 47,
    ensures
        uri_path_bytes(file_scheme_bytes() + localhost_bytes() + rest) == rest,
        uri_path_bytes(file_scheme_bytes() + rest) == rest,
{
    let with_host = file_scheme_bytes() + localhost_bytes() + rest;
    assert(with_host.take(7) =~= file_scheme_bytes());
    assert(with_host.skip(7).take(9) =~= localhost_bytes());
    assert(with_host.skip(7).skip(9) =~= rest);
    let plain = file_scheme_bytes() + rest;
    assert(plain.take(7) =~= file_scheme_bytes());
    assert(plain.skip(7) =~= rest);
    assert(!has_prefix(rest, localhost_bytes())) by {
        if has_prefix(rest, localhost_bytes()) {
            assert(rest.take(9)[0] == localhost_bytes()[0]);
        }
    }
}

/// A path that begins with `/` comes back from its file URI: the bytes that
/// `path_from_uri` decodes from the characters of `uri_from_path(path)` are the
/// path's own UTF-8 bytes, and `path_from_uri(uri_from_path(path))` is the path.
pub proof fn law_uri_path_round_trip(path: Seq<char>)
    requires
        path.len() > 0,
        path[0] == '/',
    ensures
        path_of_uri(file_scheme_chars() + percent_encoded(encode_utf8(path))) == path,
        percent_decoded(uri_path_bytes(encode_utf8(file_scheme_chars() + percent_encoded(encode_utf8(path)))))
            == encode_utf8(path),
        valid_utf8(encode_utf8(path)),
        decode_utf8(encode_utf8(path)) == path,
{
    let b = encode_utf8(path);
    let e = percent_encoded(b);
    lemma_percent_encoded_ascii(b);
    let uri = file_scheme_chars() + e;
    assert(is_ascii_chars(uri)) by {
        assert forall|i: int| 0 <= i < uri.len() implies '\0' <= #[trigger] uri[i] <= '\u{7f}' by {
            if i >= 7 {
                assert(uri[i] == e[i - 7]);
            }
        }
    }
    lemma_ascii_encoding(uri);
    let u = encode_utf8(uri);
    assert(u.take(7) =~= file_scheme_bytes());
    assert(u.skip(7) =~= encoded_bytes(b));
    // The encoded path starts with `/`, so no host follows the scheme.
    vstd::utf8::encode_utf8_first_scalar(path);
    assert(b[0] == 47) by {
        assert(encode_utf8(path) == vstd::utf8::encode_scalar(path[0] as u32) + encode_utf8(path.drop_first()));
        assert(path[0] as u32 == 47);
        assert((47u32 & 0x7F) as u8 == 47u8) by (bit_vector);
        assert(vstd::utf8::encode_scalar(47u32) == seq![47u8]);
    }
    assert(percent_encoded(b) == encode_byte(b[0]) + percent_encoded(b.drop_first()));
    assert(u.skip(7)[0] == 47);
    assert(!has_prefix(u.skip(7), localhost_bytes())) by {
        if has_prefix(u.skip(7), localhost_bytes()) {
            assert(u.skip(7).take(9)[0] == localhost_bytes()[0]);
        }
    }
    lemma_decode_encoded(b);
    vstd::utf8::encode_utf8_valid_utf8(path);
    vstd::utf8::encode_utf8_decode_utf8(path);
}

// ---------------------------------------------------------------------------
// UTF-16 positions
// ---------------------------------------------------------------------------

/// The character index at which a UTF-16 column `target` falls in `s`: the number
/// of whole characters whose code units end at or before `target`.
pub open spec fn utf16_char_index(s: Seq<char>, target: int) -> nat
    decreases s.len(),
{
    if s.len() == 0 {
        0
    } else if utf16_width(s[0]) > target {
        0
    } else {
        1 + utf16_char_index(s.drop_first(), target - utf16_width(s[0]))
    }
}

pub proof fn lemma_utf16_char_index_bound(s: Seq<char>, target: int)
    ensures
        utf16_char_index(s, target) <= s.len(),
    decreases s.len(),
{
    if s.len() > 0 && utf16_width(s[0]) <= target {
        lemma_utf16_char_index_bound(s.drop_first(), target - utf16_width(s[0]));
    }
}

/// Columns round-trip: the UTF-16 column at which character `k` of `s` starts
/// names character `k` again.
pub proof fn law_utf16_column_round_trip(s: Seq<char>, k: int)
    requires
        0 <= k <= s.len(),
    ensures
        utf16_char_index(s, utf16_len(s.take(k)) as int) == k,
    decreases s.len(),
{
    if k == 0 {
        assert(s.take(0) =~= Seq::<char>::empty());
        if s.len() > 0 {
            assert(utf16_width(s[0]) > 0);
        }
    } else {
        let rest = s.drop_first();
        assert(s.take(k).drop_first() =~= rest.take(k - 1));
        assert(s.take(k)[0] == s[0]);
        law_utf16_column_round_trip(rest, k - 1);
    }
}

/// The number of UTF-16 code units of `value`.
pub fn utf16_length(value: &str) -> (n: usize)
    ensures
        n == utf16_len(value@),
{
    let chars = chars_of(value);
    utf16_length_of(chars.as_slice())
}

pub proof fn lemma_utf16_le_utf8(s: Seq<char>)
    ensures
        utf16_len(s) <= utf8_len(s),
    decreases s.len(),
{
    if s.len() > 0 {
        lemma_utf16_le_utf8(s.drop_first());
    }
}

/// The number of UTF-16 code units of `chars[..to]`.
pub fn utf16_prefix_length(chars: &[char], to: usize) -> (n: usize)
    requires
        to <= chars@.len(),
        utf8_len(chars@) <= usize::MAX,
    ensures
        n == utf16_len(chars@.take(to as int)),
{
    let mut units: usize = 0;
    let mut i: usize = 0;
    while i < to
        invariant
            i <= to <= chars@.len(),
            utf8_len(chars@) <= usize::MAX,
            units == utf16_len(chars@.take(i as int)),
        decreases to - i,
    {
        proof {
            lemma_utf16_len_push(chars@.take(i as int), chars@[i as int]);
            assert(chars@.take(i + 1) =~= chars@.take(i as int).push(chars@[i as int]));
            lemma_utf16_len_take_mono(chars@, i + 1, chars@.len() as int);
            lemma_utf16_le_utf8(chars@);
            assert(chars@.take(chars@.len() as int) =~= chars@);
        }
        units = units + utf16_width_of(chars[i]);
        i += 1;
    }
    units
}

/// The number of UTF-16 code units of `chars`.
pub fn utf16_length_of(chars: &[char]) -> (n: usize)
    requires
        utf8_len(chars@) <= usize::MAX,
    ensures
        n == utf16_len(chars@),
{
    assert(chars@.take(chars@.len() as int) =~= chars@);
    utf16_prefix_length(chars, chars.len())
}

/// The character index for UTF-16 column `target` of `chars`.
pub fn utf16_to_char_index_of(chars: &[char], target: usize) -> (r: usize)
    ensures
        r == utf16_char_index(chars@, target as int),
{
    let mut units: usize = 0;
    let mut i: usize = 0;
    assert(chars@.skip(0) =~= chars@);
    while i < chars.len()
        invariant
            i <= chars@.len(),
            units <= target,
            utf16_char_index(chars@, target as int) == i + utf16_char_index(
                chars@.skip(i as int),
                target - units,
            ),
        decreases chars@.len() - i,
    {
        let w = utf16_width_of(chars[i]);
        assert(chars@.skip(i as int).drop_first() =~= chars@.skip(i + 1));
        if w > target - units {
            return i;
        }
        units = units + w;
        i += 1;
    }
    i
}

/// The character index for UTF-16 column `target` of `value`.
pub fn utf16_to_char_index(value: &str, target: usize) -> (r: usize)
    ensures
        r == utf16_char_index(value@, target as int),
{
    let chars = chars_of(value);
    utf16_to_char_index_of(chars.as_slice(), target)
}

/// The byte offset of the character that UTF-16 column `target` names in `value`.
pub fn utf16_to_byte_index(value: &str, target: usize) -> (r: usize)
    ensures
        r == utf8_len(value@.take(utf16_char_index(value@, target as int) as int)),
{
    let chars = chars_of(value);
    proof {
        lemma_utf8_len_encoding(value@);
    }
    let _bytes = value.as_bytes().len();
    let k = utf16_to_char_index_of(chars.as_slice(), target);
    proof {
        lemma_utf16_char_index_bound(value@, target as int);
    }
    utf8_prefix_length(chars.as_slice(), k)
}

/// The number of UTF-8 bytes of `chars[..to]`.
pub fn utf8_prefix_length(chars: &[char], to: usize) -> (n: usize)
    requires
        to <= chars@.len(),
        utf8_len(chars@) <= usize::MAX,
    ensures
        n == utf8_len(chars@.take(to as int)),
{
    let mut bytes: usize = 0;
    let mut i: usize = 0;
    while i < to
        invariant
            i <= to <= chars@.len(),
            utf8_len(chars@) <= usize::MAX,
            bytes == utf8_len(chars@.take(i as int)),
        decreases to - i,
    {
        proof {
            lemma_utf8_len_push(chars@.take(i as int), chars@[i as int]);
            assert(chars@.take(i + 1) =~= chars@.take(i as int).push(chars@[i as int]));
            lemma_utf8_len_take_mono(chars@, i + 1, chars@.len() as int);
        }
        bytes = bytes + utf8_width_of(chars[i]);
        i += 1;
    }
    bytes
}


// ---------------------------------------------------------------------------
// Lines
// ---------------------------------------------------------------------------

/// Index of the first occurrence of `c` in `s`.
pub open spec fn first_index_of(s: Seq<char>, c: char) -> Option<int>
    decreases s.len(),
{
    if s.len() == 0 {
        None
    } else if s[0] == c {
        Some(0)
    } else {
        match first_index_of(s.drop_first(), c) {
            Some(i) => Some(i + 1),
            None => None,
        }
    }
}

pub proof fn lemma_first_index_of(s: Seq<char>, c: char)
    ensures
        match first_index_of(s, c) {
            Some(i) => 0 <= i < s.len() && s[i] == c && forall|k: int| 0 <= k < i ==> s[k] != c,
            None => forall|k: int| 0 <= k < s.len() ==> s[k] != c,
        },
    decreases s.len(),
{
    if s.len() > 0 {
        lemma_first_index_of(s.drop_first(), c);
        if s[0] != c {
            match first_index_of(s.drop_first(), c) {
                Some(i) => {
                    assert forall|k: int| 0 <= k < i + 1 implies s[k] != c by {
                        if k > 0 {
                            assert(s[k] == s.drop_first()[k - 1]);
                        }
                    }
                },
                None => {
                    assert forall|k: int| 0 <= k < s.len() implies s[k] != c by {
                        if k > 0 {
                            assert(s[k] == s.drop_first()[k - 1]);
                        }
                    }
                },
            }
        }
    }
}

pub proof fn lemma_first_index_of_unique(s: Seq<char>, c: char, i: int)
    requires
        0 <= i < s.len(),
        s[i] == c,
        forall|k: int| 0 <= k < i ==> s[k] != c,
    ensures
        first_index_of(s, c) == Some(i),
{
    lemma_first_index_of(s, c);
}

/// `text.split('\n')`: the pieces between line feeds; there is always at least one.
pub open spec fn split_lines(s: Seq<char>) -> Seq<Seq<char>>
    decreases s.len(),
{
    match first_index_of(s, '\n') {
        None => seq![s],
        Some(i) => if 0 <= i < s.len() {
            seq![s.take(i)] + split_lines(s.skip(i + 1))
        } else {
            seq![s]
        },
    }
}

pub proof fn lemma_split_lines_nonempty(s: Seq<char>)
    ensures
        split_lines(s).len() >= 1,
    decreases s.len(),
{
    match first_index_of(s, '\n') {
        None => {},
        Some(i) => if 0 <= i < s.len() {
            lemma_split_lines_nonempty(s.skip(i + 1));
        },
    }
}

/// The views of a vector of character vectors.
pub open spec fn views(v: Seq<Vec<char>>) -> Seq<Seq<char>> {
    v.map_values(|x: Vec<char>| x@)
}

/// `text.split('\n')` on characters.
pub fn split_lines_of(chars: &[char]) -> (lines: Vec<Vec<char>>)
    ensures
        views(lines@) == split_lines(chars@),
        lines@.len() >= 1,
{
    let mut lines: Vec<Vec<char>> = Vec::new();
    let mut start: usize = 0;
    let mut i: usize = 0;
    assert(chars@.skip(0) =~= chars@);
    assert(views(lines@) =~= Seq::<Seq<char>>::empty());
    while i < chars.len()
        invariant
            start <= i <= chars@.len(),
            forall|k: int| start <= k < i ==> chars@[k] != '\n',
            views(lines@) + split_lines(chars@.skip(start as int)) == split_lines(chars@),
        decreases chars@.len() - i,
    {
        if chars[i] == '\n' {
            let ghost rest = chars@.skip(start as int);
            proof {
                lemma_first_index_of_unique(rest, '\n', i - start);
                assert(rest.skip(i - start + 1) =~= chars@.skip(i + 1));
                assert(rest.take(i - start) =~= chars@.subrange(start as int, i as int));
            }
            let piece = slice_of(chars, start, i);
            let ghost before = lines@;
            lines.push(piece);
            assert(views(lines@) =~= views(before).push(piece@));
            assert(views(lines@) + split_lines(chars@.skip(i + 1)) =~= views(before)
                + split_lines(rest));
            start = i + 1;
        }
        i += 1;
    }
    let ghost rest = chars@.skip(start as int);
    proof {
        lemma_first_index_of(rest, '\n');
        assert(rest =~= chars@.subrange(start as int, chars@.len() as int));
    }
    let piece = slice_of(chars, start, chars.len());
    let ghost before = lines@;
    lines.push(piece);
    assert(views(lines@) =~= views(before) + split_lines(rest));
    lines
}

// ---------------------------------------------------------------------------
// The symbol under a cursor
// ---------------------------------------------------------------------------

/// A character that may belong to an identifier.
pub open spec fn identifier_char(c: char) -> bool {
    alphanumeric(c) || c == '_' || c == '$'
}

/// A character that ends a token outside identifiers.
pub open spec fn delimiter_char(c: char) -> bool {
    whitespace(c) || c == ',' || c == ';' || c == ':' || c == '(' || c == ')' || c == '{'
        || c == '}' || c == '[' || c == ']' || c == '<' || c == '>' || c == '"' || c == '\''
}

pub fn is_identifier_character(character: char) -> (r: bool)
    ensures
        r == identifier_char(character),
{
    is_alphanumeric(character) || character == '_' || character == '$'
}

pub fn generic_delimiter(character: char) -> (r: bool)
    ensures
        r == delimiter_char(character),
{
    is_whitespace(character) || character == ',' || character == ';' || character == ':'
        || character == '(' || character == ')' || character == '{' || character == '}'
        || character == '[' || character == ']' || character == '<' || character == '>'
        || character == '"' || character == '\''
}

/// Whether `c` may be part of a token of the requested kind.
pub open spec fn token_char(c: char, identifier: bool) -> bool {
    if identifier {
        identifier_char(c)
    } else {
        !delimiter_char(c)
    }
}

fn is_token_char(c: char, identifier: bool) -> (r: bool)
    ensures
        r == token_char(c, identifier),
{
    if identifier {
        is_identifier_character(c)
    } else {
        !generic_delimiter(c)
    }
}

/// Punctuation that is trimmed from both ends of a token.
pub open spec fn edge_punctuation(c: char) -> bool {
    c == '.' || c == ',' || c == '!' || c == '?' || c == '`' || c == '~' || c == '"'
}

fn is_edge_punctuation(c: char) -> (r: bool)
    ensures
        r == edge_punctuation(c),
{
    c == '.' || c == ',' || c == '!' || c == '?' || c == '`' || c == '~' || c == '"'
}

/// Where the token that contains `cursor` starts.
pub open spec fn token_start(line: Seq<char>, cursor: int, identifier: bool) -> int
    decreases cursor,
{
    if cursor > 0 && cursor <= line.len() && token_char(line[cursor - 1], identifier) {
        token_start(line, cursor - 1, identifier)
    } else {
        cursor
    }
}

/// Where the token that reaches `end` ends.
pub open spec fn token_end(line: Seq<char>, end: int, identifier: bool) -> int
    decreases line.len() - end,
{
    if 0 <= end < line.len() && token_char(line[end], identifier) {
        token_end(line, end + 1, identifier)
    } else {
        end
    }
}

/// `s` without edge punctuation at its start.
pub open spec fn trim_punctuation_front(s: Seq<char>) -> Seq<char>
    decreases s.len(),
{
    if s.len() > 0 && edge_punctuation(s[0]) {
        trim_punctuation_front(s.drop_first())
    } else {
        s
    }
}

/// `s` without edge punctuation at its end.
pub open spec fn trim_punctuation_back(s: Seq<char>) -> Seq<char>
    decreases s.len(),
{
    if s.len() > 0 && edge_punctuation(s.last()) {
        trim_punctuation_back(s.drop_last())
    } else {
        s
    }
}

/// The cursor after it steps back onto a token that ends right before it.
pub open spec fn adjusted_cursor(line: Seq<char>, index: int, identifier: bool) -> int {
    let c0 = if index < line.len() - 1 {
        index
    } else {
        line.len() - 1
    };
    if !token_char(line[c0], identifier) && c0 > 0 && token_char(line[c0 - 1], identifier) {
        c0 - 1
    } else {
        c0
    }
}

/// The token at character `index` of `line`, without edge punctuation; `None`
/// when the line is empty, no token touches the index, or only punctuation remains.
pub open spec fn token_at_spec(line: Seq<char>, index: int, identifier: bool) -> Option<
    Seq<char>,
> {
    if line.len() == 0 {
        None
    } else {
        let cursor = adjusted_cursor(line, index, identifier);
        if !token_char(line[cursor], identifier) {
            None
        } else {
            let token = line.subrange(
                token_start(line, cursor, identifier),
                token_end(line, cursor + 1, identifier),
            );
            let trimmed = trim_punctuation_back(trim_punctuation_front(token));
            if trimmed.len() == 0 {
                None
            } else {
                Some(trimmed)
            }
        }
    }
}

/// A cursor at or past the end of a non-empty line names what the line's last
/// character names: the token that ends the line, e.g. the cursor right after
/// `message` in `return message`.
pub proof fn law_cursor_past_end(line: Seq<char>, index: int, identifier: bool)
    requires
        line.len() > 0,
        index >= line.len(),
    ensures
        token_at_spec(line, index, identifier) == token_at_spec(line, line.len() - 1, identifier),
{
}

proof fn lemma_token_start(line: Seq<char>, a: int, e: int, c: int, identifier: bool)
    requires
        0 <= a <= c <= e <= line.len(),
        forall|k: int| a <= k < e ==> token_char(#[trigger] line[k], identifier),
        a == 0 || !token_char(line[a - 1], identifier),
    ensures
        token_start(line, c, identifier) == a,
    decreases c,
{
    if c > a {
        lemma_token_start(line, a, e, c - 1, identifier);
    }
}

proof fn lemma_token_end(line: Seq<char>, a: int, e: int, c: int, identifier: bool)
    requires
        0 <= a <= c <= e <= line.len(),
        forall|k: int| a <= k < e ==> token_char(#[trigger] line[k], identifier),
        e == line.len() || !token_char(line[e], identifier),
    ensures
        token_end(line, c, identifier) == e,
    decreases e - c,
{
    if c < e {
        lemma_token_end(line, a, e, c + 1, identifier);
    }
}

/// An identifier (letters, digits, `_` and `$`) standing between characters
/// that are none of these is the symbol at every cursor on it and right after
/// it, e.g. `message` in `object.message` or `$el` in `this.$el`.
pub proof fn law_identifier_token(before: Seq<char>, name: Seq<char>, after: Seq<char>, index: int)
    requires
        name.len() > 0,
        forall|k: int| 0 <= k < name.len() ==> (alphanumeric(#[trigger] name[k]) || name[k] == '_' || name[k] == '$'),
        before.len() == 0 || !(alphanumeric(before.last()) || before.last() == '_' || before.last() == '$'),
        after.len() == 0 || !(alphanumeric(after[0]) || after[0] == '_' || after[0] == '$'),
        before.len() <= index <= before.len() + name.len(),
    ensures
        token_at_spec(before + name + after, index, true) == Some(name),
{
    let line = before + name + after;
    let a = before.len() as int;
    let e = a + name.len();
    assert forall|k: int| a <= k < e implies token_char(#[trigger] line[k], true) by {
        assert(line[k] == name[k - a]);
    }
    if a > 0 {
        assert(line[a - 1] == before.last());
    }
    if e < line.len() {
        assert(line[e] == after[0]);
    }
    let cursor = adjusted_cursor(line, index, true);
    assert(a <= cursor < e);
    lemma_token_start(line, a, e, cursor, true);
    lemma_token_end(line, a, e, cursor + 1, true);
    assert(line.subrange(a, e) =~= name);
    assert(!edge_punctuation(name[0]));
    assert(!edge_punctuation(name.last()));
}

/// Outside identifiers a token runs between whitespace and the delimiters
/// `, ; : ( ) { } [ ] < > " '`: such a run of other ASCII characters that
/// neither starts nor ends with `. , ! ? ` ~ "` is the token at every cursor on
/// it and right after it, e.g. `C++` in `a C++ b`.
pub proof fn law_delimited_token(before: Seq<char>, word: Seq<char>, after: Seq<char>, index: int)
    requires
        word.len() > 0,
        forall|k: int|
            0 <= k < word.len() ==> {
                let c = #[trigger] word[k];
                &&& (c as u32) < 128 && c != ' ' && !('\t' <= c && c <= '\r')
                &&& c != ',' && c != ';' && c != ':' && c != '(' && c != ')' && c != '{' && c != '}' && c != '['
                    && c != ']' && c != '<' && c != '>' && c != '"' && c != '\''
            },
        word[0] != '.' && word[0] != ',' && word[0] != '!' && word[0] != '?' && word[0] != '`' && word[0] != '~',
        word.last() != '.' && word.last() != ',' && word.last() != '!' && word.last() != '?' && word.last() != '`'
            && word.last() != '~',
        before.len() == 0 || before.last() == ' ' || before.last() == ',' || before.last() == '(',
        after.len() == 0 || after[0] == ' ' || after[0] == ',' || after[0] == ')',
        before.len() <= index <= before.len() + word.len(),
    ensures
        token_at_spec(before + word + after, index, false) == Some(word),
{
    let line = before + word + after;
    let a = before.len() as int;
    let e = a + word.len();
    assert forall|k: int| a <= k < e implies token_char(#[trigger] line[k], false) by {
        assert(line[k] == word[k - a]);
    }
    if a > 0 {
        assert(line[a - 1] == before.last());
    }
    if e < line.len() {
        assert(line[e] == after[0]);
    }
    let cursor = adjusted_cursor(line, index, false);
    assert(a <= cursor < e);
    lemma_token_start(line, a, e, cursor, false);
    lemma_token_end(line, a, e, cursor + 1, false);
    assert(line.subrange(a, e) =~= word);
}

/// The token of the requested kind at character `index` of `line`.
pub fn token_at(line: &[char], index: usize, identifier: bool) -> (r: Option<Vec<char>>)
    ensures
        match r {
            Some(t) => token_at_spec(line@, index as int, identifier) == Some(t@),
            None => token_at_spec(line@, index as int, identifier) is None,
        },
{
    let n = line.len();
    if n == 0 {
        return None;
    }
    let mut cursor = if index < n - 1 {
        index
    } else {
        n - 1
    };
    if !is_token_char(line[cursor], identifier) && cursor > 0 && is_token_char(
        line[cursor - 1],
        identifier,
    ) {
        cursor -= 1;
    }
    assert(cursor == adjusted_cursor(line@, index as int, identifier));
    if !is_token_char(line[cursor], identifier) {
        return None;
    }
    let mut start = cursor;
    while start > 0 && is_token_char(line[start - 1], identifier)
        invariant
            start <= cursor < n == line@.len(),
            token_start(line@, start as int, identifier) == token_start(
                line@,
                cursor as int,
                identifier,
            ),
        decreases start,
    {
        start -= 1;
    }
    let mut end = cursor + 1;
    while end < n && is_token_char(line[end], identifier)
        invariant
            cursor < end <= n == line@.len(),
            token_end(line@, end as int, identifier) == token_end(
                line@,
                cursor + 1,
                identifier,
            ),
        decreases n - end,
    {
        end += 1;
    }
    let token = Ghost(line@.subrange(start as int, end as int));
    let mut lo = start;
    while lo < end && is_edge_punctuation(line[lo])
        invariant
            start <= lo <= end <= n == line@.len(),
            trim_punctuation_front(line@.subrange(lo as int, end as int)) == trim_punctuation_front(
                token@,
            ),
        decreases end - lo,
    {
        assert(line@.subrange(lo as int, end as int).drop_first() =~= line@.subrange(
            lo + 1,
            end as int,
        ));
        lo += 1;
    }
    assert(trim_punctuation_front(line@.subrange(lo as int, end as int)) =~= line@.subrange(
        lo as int,
        end as int,
    ));
    let mut hi = end;
    while hi > lo && is_edge_punctuation(line[hi - 1])
        invariant
            start <= lo <= hi <= end <= n == line@.len(),
            trim_punctuation_back(line@.subrange(lo as int, hi as int)) == trim_punctuation_back(
                trim_punctuation_front(token@),
            ),
        decreases hi,
    {
        assert(line@.subrange(lo as int, hi as int).drop_last() =~= line@.subrange(
            lo as int,
            hi - 1,
        ));
        hi -= 1;
    }
    if hi == lo {
        assert(line@.subrange(lo as int, hi as int).len() == 0);
        return None;
    }
    Some(slice_of(line, lo, hi))
}

/// The value of `position[key]` as an unsigned number, 0 when absent.
pub open spec fn position_number(position: Json, key: Seq<char>) -> u64 {
    match position.field(key) {
        Some(v) => match v.unsigned() {
            Some(n) => n,
            None => 0,
        },
        None => 0,
    }
}

fn number_field(position: &Json, key: &str) -> (n: u64)
    ensures
        n == position_number(*position, key@),
{
    match position.get(key) {
        Some(v) => match v.as_u64() {
            Some(n) => n,
            None => 0,
        },
        None => 0,
    }
}

/// The line of `text` that a position names, the last line when it is past the end.
pub open spec fn line_at(text: Seq<char>, line_number: int) -> Seq<char> {
    let lines = split_lines(text);
    if line_number < lines.len() - 1 {
        lines[line_number]
    } else {
        lines[lines.len() - 1]
    }
}

/// The line at `line_number` and the character index of UTF-16 column `character` in it.
pub open spec fn line_and_index(text: Seq<char>, line_number: u64, character: u64) -> (Seq<char>, nat) {
    let line = line_at(text, line_number as usize as int);
    (line, utf16_char_index(line, character as usize as int))
}

fn line_and_index_of(text: &[char], line_number: u64, character: u64) -> (r: (Vec<char>, usize))
    ensures
        (r.0@, r.1 as nat) == line_and_index(text@, line_number, character),
{
    let line_number = line_number as usize;
    let character = character as usize;
    let lines = split_lines_of(text);
    let last = lines.len() - 1;
    let chosen = if line_number < last {
        line_number
    } else {
        last
    };
    let line = slice_of(lines[chosen].as_slice(), 0, lines[chosen].len());
    assert(line@ =~= lines@[chosen as int]@);
    assert(views(lines@)[chosen as int] == lines@[chosen as int]@);
    let index = utf16_to_char_index_of(line.as_slice(), character);
    (line, index)
}

/// The symbol at line `line_number`, UTF-16 column `character` of `text`: the
/// identifier there, or else the punctuation-delimited token there.
pub open spec fn symbol_at_spec(text: Seq<char>, line_number: u64, character: u64) -> Option<Seq<char>> {
    let (line, index) = line_and_index(text, line_number, character);
    match token_at_spec(line, index as int, true) {
        Some(t) => Some(t),
        None => token_at_spec(line, index as int, false),
    }
}

/// The symbol at line `line_number`, UTF-16 column `character` of `text`.
pub fn symbol_at(text: &str, line_number: u64, character: u64) -> (r: Option<String>)
    ensures
        match r {
            Some(s) => symbol_at_spec(text@, line_number, character) == Some(s@),
            None => symbol_at_spec(text@, line_number, character) is None,
        },
{
    let chars = chars_of(text);
    let (line, index) = line_and_index_of(chars.as_slice(), line_number, character);
    match token_at(line.as_slice(), index, true) {
        Some(t) => Some(string_from_chars(t.as_slice())),
        None => match token_at(line.as_slice(), index, false) {
            Some(t) => Some(string_from_chars(t.as_slice())),
            None => None,
        },
    }
}

/// The symbol at an LSP position `{"line", "character"}` of `text` (missing
/// numbers count as 0).
pub fn symbol_at_position(text: &str, position: &Json) -> (r: Option<String>)
    ensures
        match r {
            Some(s) => symbol_at_spec(text@, position_number(*position, "line"@), position_number(*position, "character"@)) == Some(s@),
            None => symbol_at_spec(text@, position_number(*position, "line"@), position_number(*position, "character"@)) is None,
        },
{
    let line_number = number_field(position, "line");
    let character = number_field(position, "character");
    symbol_at(text, line_number, character)
}

} // verus!
