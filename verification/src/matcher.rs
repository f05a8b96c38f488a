//! The movie-database side of matching: the search request's parameters,
//! URL encoding, and reading the search response.
use vstd::prelude::*;
use vstd::utf8::encode_utf8;

use crate::text::{
    matches_at, chars_of, decimal, decimal_chars, find, find_in_suffix, is_digit, is_ws, lemma_find,
    parse_bounded, parse_u16_spec, slice_chars, string_of,
};

verus! {

#[derive(Debug, Clone)]
pub struct MovieQuery {
    pub title: String,
    pub year: Option<u16>,
    pub language: String,
}

// ---------------------------------------------------------------------------
// The search request
// ---------------------------------------------------------------------------

/// The query parameters of a movie search: `query` and `language`, then
/// `year` when the query has one.
pub open spec fn search_params_spec(title: Seq<char>, year: Option<u16>, language: Seq<char>) -> Seq<
    (Seq<char>, Seq<char>),
> {
    let base = seq![("query"@, title), ("language"@, language)];
    match year {
        Some(y) => base.push(("year"@, decimal(y as nat))),
        None => base,
    }
}

/// The query parameters sent for `query`, as (name, value) pairs.
pub fn search_params(query: &MovieQuery) -> (r: Vec<(String, String)>)
    ensures
        r@.map_values(|p: (String, String)| (p.0@, p.1@)) == search_params_spec(
            query.title@,
            query.year,
            query.language@,
        ),
        param_values(r@.map_values(|p: (String, String)| (p.0@, p.1@)), "query"@) == seq![
            query.title@,
        ],
        param_values(r@.map_values(|p: (String, String)| (p.0@, p.1@)), "language"@) == seq![
            query.language@,
        ],
{
    proof {
        lemma_search_params_law(query.title@, query.year, query.language@);
    }
    let mut params: Vec<(String, String)> = Vec::new();
    params.push(("query".to_owned(), query.title.clone()));
    params.push(("language".to_owned(), query.language.clone()));
    match query.year {
        Some(y) => {
            params.push(("year".to_owned(), string_of(&decimal_chars(y as u64))));
        },
        None => {},
    }
    assert(params@.map_values(|p: (String, String)| (p.0@, p.1@)) =~= search_params_spec(
        query.title@,
        query.year,
        query.language@,
    ));
    params
}

/// Bytes sent as themselves in a URL: ASCII letters, digits, `-_.~`.
pub open spec fn is_unreserved(b: u8) -> bool {
    (65 <= b <= 90) || (97 <= b <= 122) || (48 <= b <= 57) || b == 45 || b == 95 || b == 46 || b
        == 126
}

/// The upper-case hexadecimal digit for `n` (below 16).
pub open spec fn hex_digit(n: int) -> char {
    if n < 10 {
        (48 + n) as char
    } else {
        (55 + n) as char
    }
}

/// The characters a URL encoding is made of: unreserved ones, `+` and `%`
/// (hexadecimal digits are among the unreserved).
pub open spec fn is_url_char(c: char) -> bool {
    ('A' <= c <= 'Z') || ('a' <= c <= 'z') || ('0' <= c <= '9') || c == '-' || c == '_' || c
        == '.' || c == '~' || c == '+' || c == '%'
}

/// How one byte is written: unreserved bytes as themselves, a space as `+`,
/// anything else as `%` and two upper-case hexadecimal digits.
pub open spec fn url_encode_byte(b: u8) -> Seq<char> {
    if is_unreserved(b) {
        seq![b as char]
    } else if b == 32 {
        seq!['+']
    } else {
        seq!['%', hex_digit(b as int / 16), hex_digit(b as int % 16)]
    }
}

pub open spec fn url_encode_bytes(bs: Seq<u8>) -> Seq<char>
    decreases bs.len(),
{
    if bs.len() == 0 {
        seq![]
    } else {
        url_encode_bytes(bs.drop_last()) + url_encode_byte(bs.last())
    }
}

/// A URL encoding holds only URL characters.
pub proof fn lemma_url_encode_chars(bs: Seq<u8>)
    ensures
        forall|i: int|
            0 <= i < url_encode_bytes(bs).len() ==> is_url_char(#[trigger] url_encode_bytes(bs)[i]),
    decreases bs.len(),
{
    if bs.len() > 0 {
        lemma_url_encode_chars(bs.drop_last());
        let a = url_encode_bytes(bs.drop_last());
        let e = url_encode_byte(bs.last());
        let b = bs.last();
        assert forall|i: int| 0 <= i < e.len() implies is_url_char(#[trigger] e[i]) by {
            if !is_unreserved(b) && b != 32 && i > 0 {
                let n = if i == 1 {
                    b as int / 16
                } else {
                    b as int % 16
                };
                assert(0 <= n < 16);
                assert(e[i] == hex_digit(n));
            }
        }
        assert forall|i: int| 0 <= i < (a + e).len() implies is_url_char(#[trigger] (a + e)[i]) by {
            if i >= a.len() {
                assert((a + e)[i] == e[i - a.len()]);
            } else {
                assert((a + e)[i] == a[i]);
            }
        }
    }
}

/// The value of an upper-case hexadecimal digit.
pub open spec fn hex_value(c: char) -> int {
    if c <= '9' {
        c as int - 48
    } else {
        c as int - 55
    }
}

/// Reading a URL encoding back into bytes: `+` is a space, `%XY` is the byte
/// with hexadecimal value `XY`, any other character is its own (ASCII) byte.
pub open spec fn url_decode(cs: Seq<char>) -> Seq<u8>
    decreases cs.len(),
{
    if cs.len() == 0 {
        seq![]
    } else if cs[0] == '+' {
        seq![32u8] + url_decode(cs.drop_first())
    } else if cs[0] == '%' && cs.len() >= 3 {
        seq![(hex_value(cs[1]) * 16 + hex_value(cs[2])) as u8] + url_decode(cs.skip(3))
    } else {
        seq![cs[0] as u8] + url_decode(cs.drop_first())
    }
}

/// The encoding of a byte sequence, split at its first byte.
proof fn lemma_url_encode_bytes_front(bs: Seq<u8>)
    requires
        bs.len() > 0,
    ensures
        url_encode_bytes(bs) == url_encode_byte(bs[0]) + url_encode_bytes(bs.drop_first()),
    decreases bs.len(),
{
    if bs.len() == 1 {
        assert(bs.drop_last().len() == 0);
        assert(bs.drop_first().len() == 0);
        assert(url_encode_bytes(bs.drop_last()) == Seq::<char>::empty());
        assert(bs.last() == bs[0]);
    } else {
        let init = bs.drop_last();
        lemma_url_encode_bytes_front(init);
        assert(init[0] == bs[0]);
        assert(init.drop_first() == bs.drop_first().drop_last());
        assert(bs.drop_first().last() == bs.last());
        assert(url_encode_bytes(bs.drop_first()) == url_encode_bytes(init.drop_first())
            + url_encode_byte(bs.last()));
    }
}

/// Decoding the encoding of one byte, followed by anything, gives that byte
/// first.
proof fn lemma_url_decode_byte(b: u8, rest: Seq<char>)
    ensures
        url_decode(url_encode_byte(b) + rest) == seq![b] + url_decode(rest),
{
    let e = url_encode_byte(b);
    let x = e + rest;
    if is_unreserved(b) {
        assert(x[0] == b as char);
        assert((b as char) as u8 == b);
        assert(x.drop_first() == rest);
    } else if b == 32 {
        assert(x[0] == '+');
        assert(x.drop_first() == rest);
    } else {
        let hi = b as int / 16;
        let lo = b as int % 16;
        assert(x[0] == '%');
        assert(x[1] == hex_digit(hi));
        assert(x[2] == hex_digit(lo));
        assert(hex_value(hex_digit(hi)) == hi);
        assert(hex_value(hex_digit(lo)) == lo);
        assert(hi * 16 + lo == b as int);
        assert(x.skip(3) == rest);
    }
}

/// Decoding the URL encoding of bytes gives the bytes back.
pub proof fn lemma_url_decode_encode(bs: Seq<u8>)
    ensures
        url_decode(url_encode_bytes(bs)) == bs,
    decreases bs.len(),
{
    if bs.len() == 0 {
    } else {
        lemma_url_encode_bytes_front(bs);
        lemma_url_decode_encode(bs.drop_first());
        lemma_url_decode_byte(bs[0], url_encode_bytes(bs.drop_first()));
        assert(seq![bs[0]] + bs.drop_first() == bs);
    }
}

/// Every `%` in a URL encoding is followed by two upper-case hexadecimal
/// digits.
pub open spec fn percent_escapes_hex(cs: Seq<char>) -> bool {
    forall|i: int|
        0 <= i < cs.len() && #[trigger] cs[i] == '%' ==> i + 2 < cs.len() && is_hex_upper(cs[i + 1])
            && is_hex_upper(cs[i + 2])
}

pub open spec fn is_hex_upper(c: char) -> bool {
    ('0' <= c <= '9') || ('A' <= c <= 'F')
}

/// In a URL encoding every `%` starts an escape of two upper-case
/// hexadecimal digits.
pub proof fn lemma_url_encode_escapes(bs: Seq<u8>)
    ensures
        percent_escapes_hex(url_encode_bytes(bs)),
    decreases bs.len(),
{
    if bs.len() > 0 {
        lemma_url_encode_escapes(bs.drop_last());
        let a = url_encode_bytes(bs.drop_last());
        let b = bs.last();
        let e = url_encode_byte(b);
        let r = a + e;
        assert forall|i: int| 0 <= i < r.len() && #[trigger] r[i] == '%' implies i + 2 < r.len()
            && is_hex_upper(r[i + 1]) && is_hex_upper(r[i + 2]) by {
            if i < a.len() {
                assert(r[i] == a[i]);
                assert(r[i + 1] == a[i + 1]);
                assert(r[i + 2] == a[i + 2]);
            } else {
                let k = i - a.len();
                assert(r[i] == e[k]);
                if is_unreserved(b) {
                    assert(e[0] == b as char);
                    assert(b != 37);
                    assert((b as char) != '%');
                } else if b == 32 {
                } else {
                    assert(k == 0);
                    assert(r[i + 1] == e[1]);
                    assert(r[i + 2] == e[2]);
                }
            }
        }
    }
}

/// The URL encoding of `s`, byte by byte over its UTF-8 encoding.
pub open spec fn url_encode_spec(s: Seq<char>) -> Seq<char> {
    url_encode_bytes(encode_utf8(s))
}

fn hex_char(n: u8) -> (c: char)
    requires
        n < 16,
    ensures
        c == hex_digit(n as int),
{
    if n < 10 {
        (48u8 + n) as char
    } else {
        (55u8 + n) as char
    }
}

/// Encodes `input` for a URL query: unreserved bytes stay, spaces become
/// `+`, every other byte of its UTF-8 encoding becomes `%XX`.
pub fn url_encode(input: &str) -> (r: String)
    ensures
        r@ == url_encode_spec(input@),
        forall|i: int| 0 <= i < r@.len() ==> is_url_char(#[trigger] r@[i]),
        percent_escapes_hex(r@),
        url_decode(r@) == encode_utf8(input@),
{
    proof {
        lemma_url_encode_chars(encode_utf8(input@));
        lemma_url_encode_escapes(encode_utf8(input@));
        lemma_url_decode_encode(encode_utf8(input@));
    }
    let bytes = input.as_bytes();
    let mut out: Vec<char> = Vec::new();
    let mut i: usize = 0;
    while i < bytes.len()
        invariant
            i <= bytes@.len(),
            bytes@ == encode_utf8(input@),
            out@ == url_encode_bytes(bytes@.take(i as int)),
        decreases bytes.len() - i,
    {
        let b = bytes[i];
        if (65 <= b && b <= 90) || (97 <= b && b <= 122) || (48 <= b && b <= 57) || b == 45 || b
            == 95 || b == 46 || b == 126 {
            out.push(b as char);
        } else if b == 32 {
            out.push('+');
        } else {
            out.push('%');
            out.push(hex_char(b / 16));
            out.push(hex_char(b % 16));
        }
        proof {
            let t = bytes@.take(i + 1);
            assert(t.drop_last() == bytes@.take(i as int));
            assert(t.last() == b);
        }
        i = i + 1;
    }
    assert(bytes@.take(bytes@.len() as int) == bytes@);
    string_of(&out)
}

// ---------------------------------------------------------------------------
// Reading the search response
// ---------------------------------------------------------------------------

/// `"key"`, the quoted key looked for in the response.
pub open spec fn quoted(key: Seq<char>) -> Seq<char> {
    seq!['"'] + key + seq!['"']
}

/// The string value after the first `"key"` in the payload: the text between
/// the next two double quotes.
pub open spec fn json_string_spec(payload: Seq<char>, key: Seq<char>) -> Option<Seq<char>> {
    match find(payload, quoted(key)) {
        None => None,
        Some(i) => {
            let rest = payload.skip(i + quoted(key).len());
            match find(rest, seq!['"']) {
                None => None,
                Some(q) => {
                    let rem = rest.skip(q + 1);
                    match find(rem, seq!['"']) {
                        None => None,
                        Some(e) => Some(rem.take(e)),
                    }
                },
            }
        },
    }
}

fn quoted_key(key: &str) -> (r: Vec<char>)
    ensures
        r@ == quoted(key@),
{
    let mut q: Vec<char> = Vec::new();
    q.push('"');
    let k = chars_of(key);
    crate::text::append_chars(&mut q, &k);
    q.push('"');
    assert(q@ == quoted(key@));
    q
}

fn one_char(c: char) -> (r: Vec<char>)
    ensures
        r@ == seq![c],
{
    let mut v: Vec<char> = Vec::new();
    v.push(c);
    assert(v@ == seq![c]);
    v
}

proof fn lemma_skip_skip(s: Seq<char>, a: int, b: int)
    requires
        0 <= a,
        0 <= b,
        a + b <= s.len(),
    ensures
        s.skip(a).skip(b) == s.skip(a + b),
{
    assert(s.skip(a).skip(b) =~= s.skip(a + b));
}

/// A string value read from the payload holds no double quote.
pub proof fn lemma_json_string_unquoted(payload: Seq<char>, key: Seq<char>)
    ensures
        json_string_spec(payload, key) matches Some(v) ==> forall|i: int|
            0 <= i < v.len() ==> #[trigger] v[i] != '"',
{
    match find(payload, quoted(key)) {
        Some(i) => {
            let rest = payload.skip(i + quoted(key).len());
            match find(rest, seq!['"']) {
                Some(q) => {
                    let rem = rest.skip(q + 1);
                    lemma_find(rem, seq!['"']);
                    match find(rem, seq!['"']) {
                        Some(e) => {
                            assert forall|k: int| 0 <= k < rem.take(e).len() implies #[trigger] rem.take(
                                e,
                            )[k] != '"' by {
                                assert(!matches_at(rem, seq!['"'], k));
                                if rem[k] == '"' {
                                    assert(rem.subrange(k, k + 1) =~= seq!['"']);
                                }
                            }
                        },
                        None => {},
                    }
                },
                None => {},
            }
        },
        None => {},
    }
}

/// The string value of `key` in a search response (see `json_string_spec`).
pub fn extract_json_string(payload: &str, key: &str) -> (r: Option<String>)
    ensures
        match json_string_spec(payload@, key@) {
            Some(v) => r matches Some(s) && s@ == v,
            None => r is None,
        },
        r matches Some(s) ==> forall|i: int| 0 <= i < s@.len() ==> #[trigger] s@[i] != '"',
{
    proof {
        lemma_json_string_unquoted(payload@, key@);
    }
    let p = chars_of(payload);
    let needle = quoted_key(key);
    let quote = one_char('"');
    assert(p@.skip(0) == p@);
    let idx = match find_in_suffix(&p, &needle, 0) {
        Some(i) => i,
        None => {
            return None;
        },
    };
    proof {
        lemma_find(p@, needle@);
    }
    assert(idx + needle@.len() <= p@.len());
    assert(p@.len() == p.len());
    let rest_start = idx + needle.len();
    let ghost rest = p@.skip(rest_start as int);
    let first_quote = match find_in_suffix(&p, &quote, rest_start) {
        Some(q) => q,
        None => {
            return None;
        },
    };
    proof {
        lemma_find(rest, quote@);
    }
    let rem_start = first_quote + 1;
    proof {
        lemma_skip_skip(p@, rest_start as int, (first_quote - rest_start + 1) as int);
    }
    let end_quote = match find_in_suffix(&p, &quote, rem_start) {
        Some(e) => e,
        None => {
            return None;
        },
    };
    proof {
        lemma_find(p@.skip(rem_start as int), quote@);
    }
    let v = slice_chars(&p, rem_start, end_quote);
    assert(v@ == p@.skip(rem_start as int).take(end_quote - rem_start));
    Some(string_of(&v))
}

/// The number of leading characters of `s` that are digits or `.`.
pub open spec fn number_run(s: Seq<char>) -> nat
    decreases s.len(),
{
    if s.len() > 0 && (is_digit(s[0]) || s[0] == '.') {
        1 + number_run(s.drop_first())
    } else {
        0
    }
}

/// `s` without its leading whitespace.
pub open spec fn skip_ws(s: Seq<char>) -> Seq<char> {
    crate::text::trim_start_ws(s)
}

/// The text of the number after the first `"key"` in the payload: after the
/// next `:` and any whitespace, the longest run of digits and dots.
pub open spec fn json_number_text_spec(payload: Seq<char>, key: Seq<char>) -> Option<Seq<char>> {
    match find(payload, quoted(key)) {
        None => None,
        Some(i) => {
            let rest = payload.skip(i + quoted(key).len());
            match find(rest, seq![':']) {
                None => None,
                Some(c) => {
                    let n = skip_ws(rest.skip(c + 1));
                    Some(n.take(number_run(n) as int))
                },
            }
        },
    }
}

proof fn lemma_number_run(s: Seq<char>, k: int)
    requires
        0 <= k <= s.len(),
        forall|j: int| 0 <= j < k ==> is_digit(#[trigger] s[j]) || s[j] == '.',
        k == s.len() || !(is_digit(s[k]) || s[k] == '.'),
    ensures
        number_run(s) == k,
    decreases k,
{
    if k > 0 {
        assert forall|j: int| 0 <= j < k - 1 implies is_digit(#[trigger] s.drop_first()[j])
            || s.drop_first()[j] == '.' by {
            assert(s.drop_first()[j] == s[j + 1]);
            assert(is_digit(s[j + 1]) || s[j + 1] == '.');
        }
        if k - 1 < s.drop_first().len() {
            assert(s.drop_first()[k - 1] == s[k]);
        }
        lemma_number_run(s.drop_first(), k - 1);
    }
}

/// The text of the number given for `key` in a search response (see
/// `json_number_text_spec`); reading it as a float is left to the caller.
pub fn json_number_text(payload: &str, key: &str) -> (r: Option<String>)
    ensures
        match json_number_text_spec(payload@, key@) {
            Some(v) => r matches Some(s) && s@ == v,
            None => r is None,
        },
{
    let p = chars_of(payload);
    let needle = quoted_key(key);
    let colon = one_char(':');
    let idx = match find_in_suffix(&p, &needle, 0) {
        Some(i) => i,
        None => {
            assert(p@.skip(0) == p@);
            return None;
        },
    };
    assert(p@.skip(0) == p@);
    proof {
        lemma_find(p@, needle@);
    }
    assert(idx + needle@.len() <= p@.len());
    assert(p@.len() == p.len());
    let rest_start = idx + needle.len();
    let ghost rest = p@.skip(rest_start as int);
    let c = match find_in_suffix(&p, &colon, rest_start) {
        Some(c) => c,
        None => {
            return None;
        },
    };
    proof {
        lemma_find(rest, colon@);
    }
    let after = slice_chars(&p, c + 1, p.len());
    proof {
        lemma_skip_skip(p@, rest_start as int, (c - rest_start + 1) as int);
        assert(after@ == p@.skip(c + 1));
    }
    let n = crate::text::trim_start_whitespace(&after);
    let mut end: usize = 0;
    while end < n.len() && (crate::text::char_is_digit(n[end]) || n[end] == '.')
        invariant
            end <= n.len(),
            forall|j: int| 0 <= j < end ==> is_digit(#[trigger] n@[j]) || n@[j] == '.',
        decreases n.len() - end,
    {
        end = end + 1;
    }
    proof {
        lemma_number_run(n@, end as int);
    }
    let v = slice_chars(&n, 0, end);
    Some(string_of(&v))
}

/// ASCII letters in lower case; every other character unchanged.
pub open spec fn ascii_lower(c: char) -> char {
    if 'A' <= c <= 'Z' {
        ((c as u32) + 32) as char
    } else {
        c
    }
}

/// `str::eq_ignore_ascii_case`: equal up to the case of ASCII letters.
pub open spec fn eq_ignore_ascii_case_spec(a: Seq<char>, b: Seq<char>) -> bool {
    a.len() == b.len() && forall|i: int| 0 <= i < a.len() ==> ascii_lower(a[i]) == ascii_lower(b[i])
}

fn lower(c: char) -> (r: char)
    ensures
        r == ascii_lower(c),
{
    if 'A' <= c && c <= 'Z' {
        let b = c as u8;
        (b + 32) as char
    } else {
        c
    }
}

fn eq_ignore_ascii_case(a: &str, b: &str) -> (r: bool)
    ensures
        r == eq_ignore_ascii_case_spec(a@, b@),
{
    let x = chars_of(a);
    let y = chars_of(b);
    if x.len() != y.len() {
        return false;
    }
    let mut i: usize = 0;
    while i < x.len()
        invariant
            x@ == a@,
            y@ == b@,
            x.len() == y.len(),
            i <= x.len(),
            forall|k: int| 0 <= k < i ==> ascii_lower(x@[k]) == ascii_lower(y@[k]),
        decreases x.len() - i,
    {
        if lower(x[i]) != lower(y[i]) {
            return false;
        }
        i = i + 1;
    }
    true
}

/// The release year read from a release date: its first four characters
/// read as a `u16` (`date.get(0..4)` and `parse`; when those four characters
/// are not all ASCII the parse fails just as the byte slice would).
pub open spec fn release_year_spec(date: Seq<char>) -> Option<u16> {
    if date.len() >= 4 {
        parse_u16_spec(date.take(4))
    } else {
        None
    }
}

/// What a search response says, apart from popularity: the first result's
/// title and release year, and whether they agree with the query.
#[derive(Debug, Clone)]
pub struct SearchHit {
    pub title: String,
    pub year: Option<u16>,
    pub title_matches: bool,
    pub year_matches: bool,
}

/// `SearchHit` with its title as a character sequence.
pub struct SearchHitView {
    pub title: Seq<char>,
    pub year: Option<u16>,
    pub title_matches: bool,
    pub year_matches: bool,
}

impl View for SearchHit {
    type V = SearchHitView;

    open spec fn view(&self) -> SearchHitView {
        SearchHitView {
            title: self.title@,
            year: self.year,
            title_matches: self.title_matches,
            year_matches: self.year_matches,
        }
    }
}

/// How a search response is read for a query: no hit without a `title`;
/// the year from `release_date`; the title matches when equal to the
/// queried title up to ASCII case; the year matches when the query has a
/// year and it is the one read.
pub open spec fn search_hit_spec(
    payload: Seq<char>,
    query_title: Seq<char>,
    query_year: Option<u16>,
) -> Option<SearchHitView> {
    match json_string_spec(payload, "title"@) {
        None => None,
        Some(title) => {
            let year = match json_string_spec(payload, "release_date"@) {
                Some(d) => release_year_spec(d),
                None => None,
            };
            Some(
                SearchHitView {
                    title,
                    year,
                    title_matches: eq_ignore_ascii_case_spec(title, query_title),
                    year_matches: query_year is Some && query_year == year,
                },
            )
        },
    }
}

fn release_year(date: &str) -> (r: Option<u16>)
    ensures
        r == release_year_spec(date@),
{
    let d = chars_of(date);
    if d.len() < 4 {
        return None;
    }
    assert(d@.subrange(0, 4) == d@.take(4));
    match parse_bounded(&d, 0, 4, 65535) {
        Some(v) => Some(v as u16),
        None => None,
    }
}

/// The values of the parameters named `name`, in order.
pub open spec fn param_values(p: Seq<(Seq<char>, Seq<char>)>, name: Seq<char>) -> Seq<Seq<char>>
    decreases p.len(),
{
    if p.len() == 0 {
        seq![]
    } else {
        param_values(p.drop_last(), name) + if p.last().0 == name {
            seq![p.last().1]
        } else {
            seq![]
        }
    }
}

/// A movie search sends exactly one `query` parameter, holding the queried
/// title, and exactly one `language` parameter, holding the language, with
/// or without a year; it sends one `year` parameter, holding the year's
/// digits, exactly when the query has a year; and nothing else.
pub proof fn lemma_search_params_law(title: Seq<char>, year: Option<u16>, language: Seq<char>)
    ensures
        param_values(search_params_spec(title, year, language), "query"@) == seq![title],
        param_values(search_params_spec(title, year, language), "language"@) == seq![language],
        param_values(search_params_spec(title, year, language), "year"@) == match year {
            Some(y) => seq![decimal(y as nat)],
            None => Seq::<Seq<char>>::empty(),
        },
        forall|i: int|
            0 <= i < search_params_spec(title, year, language).len() ==> {
                let n = #[trigger] search_params_spec(title, year, language)[i].0;
                n == "query"@ || n == "language"@ || n == "year"@
            },
{
    reveal_strlit("query");
    reveal_strlit("language");
    reveal_strlit("year");
    let p = search_params_spec(title, year, language);
    let b = seq![("query"@, title), ("language"@, language)];
    assert("query"@ != "language"@) by {
        assert("query"@.len() != "language"@.len());
    }
    assert("query"@ != "year"@) by {
        assert("query"@[0] != "year"@[0]);
    }
    assert("language"@ != "year"@) by {
        assert("language"@.len() != "year"@.len());
    }
    let one = b.drop_last();
    assert(one.drop_last().len() == 0);
    assert(param_values(one.drop_last(), "query"@) == Seq::<Seq<char>>::empty());
    assert(param_values(one.drop_last(), "language"@) == Seq::<Seq<char>>::empty());
    assert(param_values(one.drop_last(), "year"@) == Seq::<Seq<char>>::empty());
    assert(param_values(one, "query"@) =~= seq![title]);
    assert(param_values(one, "language"@) =~= Seq::<Seq<char>>::empty());
    assert(param_values(one, "year"@) =~= Seq::<Seq<char>>::empty());
    assert(param_values(b, "query"@) =~= seq![title]);
    assert(param_values(b, "language"@) =~= seq![language]);
    assert(param_values(b, "year"@) =~= Seq::<Seq<char>>::empty());
    match year {
        Some(y) => {
            assert(p.drop_last() == b);
            assert(param_values(p, "query"@) =~= seq![title]);
            assert(param_values(p, "language"@) =~= seq![language]);
            assert(param_values(p, "year"@) =~= seq![decimal(y as nat)]);
        },
        None => {},
    }
}

/// A title match is equality up to the case of ASCII letters: the hit's
/// title and the queried title have the same length and agree, position by
/// position, once ASCII letters are lower-cased; titles of different lengths
/// never match. A year match is a queried year equal to the year read.
pub proof fn lemma_search_hit_law(payload: Seq<char>, query_title: Seq<char>, query_year: Option<u16>)
    ensures
        search_hit_spec(payload, query_title, query_year) matches Some(h) ==> {
            &&& h.title_matches <==> (h.title.len() == query_title.len() && forall|i: int|
                0 <= i < query_title.len() ==> ascii_lower(#[trigger] h.title[i]) == ascii_lower(
                    query_title[i],
                ))
            &&& h.title.len() != query_title.len() ==> !h.title_matches
            &&& h.year_matches <==> (query_year is Some && query_year == h.year)
            &&& Some(h.title) == json_string_spec(payload, "title"@)
        },
{
}

/// Reads a search response for `query` (see `search_hit_spec`).
pub fn read_search_response(payload: &str, query: &MovieQuery) -> (r: Option<SearchHit>)
    ensures
        match search_hit_spec(payload@, query.title@, query.year) {
            Some(h) => r matches Some(x) && x@ == h,
            None => r is None,
        },
        r matches Some(h) ==> (h.title_matches <==> (h.title@.len() == query.title@.len()
            && forall|i: int|
            0 <= i < query.title@.len() ==> ascii_lower(#[trigger] h.title@[i]) == ascii_lower(
                query.title@[i],
            ))),
{
    proof {
        lemma_search_hit_law(payload@, query.title@, query.year);
    }
    let title = match extract_json_string(payload, "title") {
        Some(t) => t,
        None => {
            return None;
        },
    };
    let year = match extract_json_string(payload, "release_date") {
        Some(d) => release_year(d.as_str()),
        None => None,
    };
    let title_matches = eq_ignore_ascii_case(title.as_str(), query.title.as_str());
    let year_matches = query.year.is_some() && query.year == year;
    Some(SearchHit { title, year, title_matches, year_matches })
}


/// The movie database key: the one given on the command line, else the one
/// found in the environment; an error when there is neither.
pub fn required_tmdb_key(arg: &Option<String>, env_key: Option<String>) -> (r: Result<
    String,
    String,
>)
    ensures
        match (arg, env_key) {
            (Some(a), _) => r matches Ok(k) && k@ == a@,
            (None, Some(e)) => r matches Ok(k) && k@ == e@,
            (None, None) => r matches Err(m) && m@ == "TMDB key missing"@,
        },
{
    match arg {
        Some(a) => Ok(a.clone()),
        None => match env_key {
            Some(e) => Ok(e),
            None => Err("TMDB key missing".to_owned()),
        },
    }
}

} // verus!
