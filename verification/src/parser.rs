//! Recognising movies and episodes in file names.
use vstd::prelude::*;

use crate::paths::{file_name_of, is_plain_name, path_file_name};
use crate::text::{
    all_digits, chars_of, collapse_whitespace, collapse_ws, digits_value, is_digit, is_alpha,
    lemma_digits_value_bound, lemma_parse_digits, parse_bounded, pow10, slice_chars, string_of,
    trim_whitespace, trim_ws, char_is_digit, is_clean, is_ws, lemma_collapse_chars,
    lemma_collapse_clean, lemma_trim_prefix_clean,
};

verus! {

#[derive(Debug, Clone, Copy, PartialEq, Eq, Structural)]
pub enum MediaKind {
    Movie,
    Episode,
    Unknown,
}

/// What was recognised in a file name.
#[derive(Debug, Clone, PartialEq, Eq)]
pub struct ParsedMedia {
    pub kind: MediaKind,
    pub title_guess: Option<String>,
    pub year_guess: Option<u16>,
    pub season: Option<u16>,
    pub episode: Option<u16>,
    pub ext: String,
}

/// `ParsedMedia` with its strings taken as character sequences.
pub struct MediaView {
    pub kind: MediaKind,
    pub title: Option<Seq<char>>,
    pub year: Option<u16>,
    pub season: Option<u16>,
    pub episode: Option<u16>,
    pub ext: Seq<char>,
}

pub open spec fn opt_view(o: Option<String>) -> Option<Seq<char>> {
    match o {
        Some(s) => Some(s@),
        None => None,
    }
}

impl View for ParsedMedia {
    type V = MediaView;

    open spec fn view(&self) -> MediaView {
        MediaView {
            kind: self.kind,
            title: opt_view(self.title_guess),
            year: self.year_guess,
            season: self.season,
            episode: self.episode,
            ext: self.ext@,
        }
    }
}

// ---------------------------------------------------------------------------
// Name and extension
// ---------------------------------------------------------------------------

/// Index of the last `c` in `s`.
pub open spec fn last_index_of(s: Seq<char>, c: char) -> Option<int>
    decreases s.len(),
{
    if s.len() == 0 {
        None
    } else if s.last() == c {
        Some(s.len() - 1)
    } else {
        last_index_of(s.drop_last(), c)
    }
}

/// An extension: at most five ASCII letters (possibly none).
pub open spec fn is_extension(e: Seq<char>) -> bool {
    e.len() <= 5 && forall|i: int| 0 <= i < e.len() ==> is_alpha(#[trigger] e[i])
}

/// The file name split at its last `.` into name and extension, when what
/// follows that dot is an extension; otherwise the whole name and no
/// extension.
pub open spec fn name_and_ext(s: Seq<char>) -> (Seq<char>, Seq<char>) {
    match last_index_of(s, '.') {
        Some(k) => if is_extension(s.skip(k + 1)) {
            (s.take(k), s.skip(k + 1))
        } else {
            (s, seq![])
        },
        None => (s, seq![]),
    }
}

proof fn lemma_last_index_of(s: Seq<char>, c: char, k: int)
    requires
        -1 <= k < s.len(),
        k >= 0 ==> s[k] == c,
        forall|j: int| k < j < s.len() ==> s[j] != c,
    ensures
        last_index_of(s, c) == (if k >= 0 {
            Some(k)
        } else {
            None
        }),
    decreases s.len(),
{
    if s.len() > 0 && k < s.len() - 1 {
        assert(s[s.len() - 1] != c);
        assert forall|j: int| k < j < s.drop_last().len() implies s.drop_last()[j] != c by {
            assert(s.drop_last()[j] == s[j]);
        }
        if k >= 0 {
            assert(s.drop_last()[k] == s[k]);
        }
        lemma_last_index_of(s.drop_last(), c, k);
    }
}

fn split_name_ext(s: &Vec<char>) -> (r: (Vec<char>, Vec<char>))
    ensures
        r.0@ == name_and_ext(s@).0,
        r.1@ == name_and_ext(s@).1,
{
    let mut k: usize = s.len();
    while k > 0 && s[k - 1] != '.'
        invariant
            k <= s.len(),
            forall|j: int| k <= j < s.len() ==> s@[j] != '.',
        decreases k,
    {
        k = k - 1;
    }
    proof {
        lemma_last_index_of(s@, '.', k - 1);
    }
    if k == 0 {
        return (s.clone(), Vec::new());
    }
    let dot = k - 1;
    let ext = slice_chars(s, dot + 1, s.len());
    assert(ext@ == s@.skip(dot + 1));
    let mut ok = ext.len() <= 5;
    let mut i: usize = 0;
    while ok && i < ext.len()
        invariant
            i <= ext.len(),
            ok ==> ext.len() <= 5,
            ok ==> forall|j: int| 0 <= j < i ==> is_alpha(#[trigger] ext@[j]),
            !ok ==> !is_extension(ext@),
        decreases ext.len() - i,
    {
        let c = ext[i];
        if !(('a' <= c && c <= 'z') || ('A' <= c && c <= 'Z')) {
            ok = false;
        }
        i = i + 1;
    }
    if ok {
        let name = slice_chars(s, 0, dot);
        assert(name@ == s@.take(dot as int));
        (name, ext)
    } else {
        (s.clone(), Vec::new())
    }
}

// ---------------------------------------------------------------------------
// The stem: separators become spaces, whitespace is collapsed
// ---------------------------------------------------------------------------

pub open spec fn is_separator(c: char) -> bool {
    c == '.' || c == '_' || c == '-'
}

pub open spec fn separator_to_space(c: char) -> char {
    if is_separator(c) {
        ' '
    } else {
        c
    }
}

/// The words of a name, with `.`, `_` and `-` counted as spaces, joined by
/// single spaces.
pub open spec fn stem_of(raw: Seq<char>) -> Seq<char> {
    collapse_ws(raw.map_values(|c: char| separator_to_space(c)))
}

fn stem(raw: &Vec<char>) -> (r: Vec<char>)
    ensures
        r@ == stem_of(raw@),
{
    let mut spaced: Vec<char> = Vec::new();
    let mut i: usize = 0;
    while i < raw.len()
        invariant
            i <= raw.len(),
            spaced@ == raw@.take(i as int).map_values(|c: char| separator_to_space(c)),
        decreases raw.len() - i,
    {
        let c = raw[i];
        let d = if c == '.' || c == '_' || c == '-' {
            ' '
        } else {
            c
        };
        spaced.push(d);
        i = i + 1;
        assert(raw@.take(i as int).map_values(|c: char| separator_to_space(c)) == raw@.take(
            (i - 1) as int,
        ).map_values(|c: char| separator_to_space(c)).push(d));
    }
    assert(raw@.take(raw.len() as int) == raw@);
    collapse_whitespace(&spaced)
}

// ---------------------------------------------------------------------------
// Episodes: `S<1-2 digits>E<1-3 digits>` or `<1-2 digits>x<1-3 digits>`
// ---------------------------------------------------------------------------

/// The number of consecutive ASCII digits in `s` starting at `p`.
pub open spec fn digit_run(s: Seq<char>, p: int) -> nat
    decreases s.len() - p,
{
    if 0 <= p < s.len() && is_digit(s[p]) {
        1 + digit_run(s, p + 1)
    } else {
        0
    }
}

pub open spec fn min_nat(a: nat, b: nat) -> nat {
    if a <= b {
        a
    } else {
        b
    }
}

/// The digits from `a` to `b` read as a number.
pub open spec fn number_in(s: Seq<char>, a: int, b: int) -> u16 {
    digits_value(s.subrange(a, b)) as u16
}

/// The season and episode written at index `i` of the stem, if an episode
/// marker starts there: `S`/`s`, one or two digits, `E`/`e`, one to three
/// digits; or one or two digits, `x`/`X`, one to three digits. Digits beyond
/// those counts are left unread. (The guard `i + 3 < s.len()` only ever
/// rejects positions where no marker could fit, whether lengths are counted in
/// characters or in bytes.)
pub open spec fn episode_at(s: Seq<char>, i: int) -> Option<(u16, u16)> {
    let c = s[i];
    if (c == 'S' || c == 's') && i + 3 < s.len() {
        let j = i + 1 + min_nat(digit_run(s, i + 1), 2);
        if j < s.len() && (s[j] == 'E' || s[j] == 'e') {
            let k = j + 1 + min_nat(digit_run(s, j + 1), 3);
            if j > i + 1 && k > j + 1 {
                Some((number_in(s, i + 1, j), number_in(s, j + 1, k)))
            } else {
                None
            }
        } else {
            None
        }
    } else if is_digit(c) {
        let j = i + min_nat(digit_run(s, i), 2);
        if j < s.len() && (s[j] == 'x' || s[j] == 'X') {
            let k = j + 1 + min_nat(digit_run(s, j + 1), 3);
            if k > j + 1 {
                Some((number_in(s, i, j), number_in(s, j + 1, k)))
            } else {
                None
            }
        } else {
            None
        }
    } else {
        None
    }
}

/// The first index at or after `from` where an episode marker starts, with
/// the season and episode read there.
pub open spec fn first_episode(s: Seq<char>, from: int) -> Option<(int, u16, u16)>
    decreases s.len() - from,
{
    if from < 0 || from >= s.len() {
        None
    } else {
        match episode_at(s, from) {
            Some((a, b)) => Some((from, a, b)),
            None => first_episode(s, from + 1),
        }
    }
}

proof fn lemma_digit_run_step(s: Seq<char>, p: int)
    requires
        0 <= p < s.len(),
        is_digit(s[p]),
    ensures
        digit_run(s, p) == 1 + digit_run(s, p + 1),
{
}

/// `min(digit_run(s, p), cap)`, computed.
fn capped_run(s: &Vec<char>, p: usize, cap: usize) -> (r: usize)
    requires
        p <= s.len(),
        cap <= 3,
    ensures
        r == min_nat(digit_run(s@, p as int), cap as nat),
        p + r <= s.len(),
        forall|q: int| p <= q < p + r ==> is_digit(#[trigger] s@[q]),
{
    let mut j = p;
    while j < s.len() && char_is_digit(s[j]) && j - p < cap
        invariant
            p <= j <= s.len(),
            j - p <= cap,
            forall|q: int| p <= q < j ==> is_digit(#[trigger] s@[q]),
            digit_run(s@, p as int) == (j - p) + digit_run(s@, j as int),
        decreases s.len() - j,
    {
        proof {
            lemma_digit_run_step(s@, j as int);
        }
        j = j + 1;
    }
    j - p
}

/// The number written in the digits `s[a..b]` (at most four of them).
fn read_number(s: &Vec<char>, a: usize, b: usize) -> (r: u16)
    requires
        a < b <= s.len(),
        b - a <= 4,
        forall|q: int| a <= q < b ==> is_digit(#[trigger] s@[q]),
    ensures
        r == number_in(s@, a as int, b as int),
        r as nat == digits_value(s@.subrange(a as int, b as int)),
{
    let ghost d = s@.subrange(a as int, b as int);
    proof {
        assert(all_digits(d)) by {
            assert forall|i: int| 0 <= i < d.len() implies is_digit(#[trigger] d[i]) by {
                assert(d[i] == s@[a + i]);
            }
        }
        lemma_digits_value_bound(d);
        reveal_with_fuel(pow10, 5);
        assert(pow10(4) == 10000);
        lemma_parse_digits(d);
    }
    let v = parse_bounded(s, a, b, 65535);
    match v {
        Some(n) => n as u16,
        None => 0,
    }
}

fn episode_at_index(s: &Vec<char>, i: usize) -> (r: Option<(u16, u16)>)
    requires
        i < s.len(),
    ensures
        r == episode_at(s@, i as int),
{
    let c = s[i];
    if (c == 'S' || c == 's') && s.len() - i > 3 {
        let j = i + 1 + capped_run(s, i + 1, 2);
        if j < s.len() && (s[j] == 'E' || s[j] == 'e') {
            let k = j + 1 + capped_run(s, j + 1, 3);
            if j > i + 1 && k > j + 1 {
                let season = read_number(s, i + 1, j);
                let episode = read_number(s, j + 1, k);
                return Some((season, episode));
            }
        }
        None
    } else if char_is_digit(c) {
        let j = i + capped_run(s, i, 2);
        if j < s.len() && (s[j] == 'x' || s[j] == 'X') {
            let k = j + 1 + capped_run(s, j + 1, 3);
            if k > j + 1 {
                let season = read_number(s, i, j);
                let episode = read_number(s, j + 1, k);
                return Some((season, episode));
            }
        }
        None
    } else {
        None
    }
}

fn find_episode(s: &Vec<char>) -> (r: Option<(usize, u16, u16)>)
    ensures
        match r {
            Some((i, a, b)) => first_episode(s@, 0) == Some((i as int, a, b)) && i < s.len(),
            None => first_episode(s@, 0) is None,
        },
{
    let mut i: usize = 0;
    while i < s.len()
        invariant
            i <= s.len(),
            first_episode(s@, 0) == first_episode(s@, i as int),
        decreases s.len() - i,
    {
        match episode_at_index(s, i) {
            Some((a, b)) => {
                return Some((i, a, b));
            },
            None => {},
        }
        i = i + 1;
    }
    None
}

// ---------------------------------------------------------------------------
// Years: four digits from 1900 to 2100 that are not part of a longer number
// ---------------------------------------------------------------------------

proof fn lemma_first_year_bounds(s: Seq<char>, from: int)
    ensures
        first_year(s, from) matches YearScan::Found(p, _) ==> from <= p < s.len(),
    decreases s.len() - from,
{
    if 0 <= from < s.len() && !four_bytes_split_char(s, from) && year_at(s, from) is None {
        lemma_first_year_bounds(s, from + 1);
    }
}

/// Bytes in the UTF-8 encoding of `c`.
pub open spec fn utf8_width(c: char) -> nat {
    let u = c as u32;
    if u < 0x80 {
        1
    } else if u < 0x800 {
        2
    } else if u < 0x10000 {
        3
    } else {
        4
    }
}

/// Bytes in the UTF-8 encoding of `s`.
pub open spec fn utf8_size(s: Seq<char>) -> nat
    decreases s.len(),
{
    if s.len() == 0 {
        0
    } else {
        utf8_size(s.drop_last()) + utf8_width(s.last())
    }
}

/// The year search slices four bytes at every character boundary that has
/// at least four bytes after it. This holds when, at character `p`, those
/// four bytes end inside a character: that slice panics.
pub open spec fn four_bytes_split_char(s: Seq<char>, p: int) -> bool {
    &&& utf8_size(s.skip(p)) >= 4
    &&& !exists|k: int| p <= k <= s.len() && #[trigger] utf8_size(s.subrange(p, k)) == 4
}

/// The year written at character `p`: four ASCII digits from 1900 to 2100,
/// with no digit right before or right after them.
pub open spec fn year_at(s: Seq<char>, p: int) -> Option<u16> {
    if 0 <= p && p + 4 <= s.len() && all_digits(s.subrange(p, p + 4)) {
        let y = digits_value(s.subrange(p, p + 4));
        if 1900 <= y <= 2100 && (p == 0 || !is_digit(s[p - 1])) && (p + 4 == s.len() || !is_digit(
            s[p + 4],
        )) {
            Some(y as u16)
        } else {
            None
        }
    } else {
        None
    }
}

/// Outcome of the year search.
pub enum YearScan {
    Found(int, u16),
    Absent,
    SplitsChar,
}

/// The year search from character `from` on: the first character at which
/// either a year starts or the four-byte slice would split a character.
pub open spec fn first_year(s: Seq<char>, from: int) -> YearScan
    decreases s.len() - from,
{
    if from < 0 || from >= s.len() {
        YearScan::Absent
    } else if four_bytes_split_char(s, from) {
        YearScan::SplitsChar
    } else {
        match year_at(s, from) {
            Some(y) => YearScan::Found(from, y),
            None => first_year(s, from + 1),
        }
    }
}

pub proof fn lemma_utf8_size_concat(a: Seq<char>, b: Seq<char>)
    ensures
        utf8_size(a + b) == utf8_size(a) + utf8_size(b),
    decreases b.len(),
{
    if b.len() > 0 {
        lemma_utf8_size_concat(a, b.drop_last());
        assert((a + b).drop_last() == a + b.drop_last());
        assert((a + b).last() == b.last());
    } else {
        assert(a + b == a);
    }
}

/// `utf8_size` is the length of vstd's UTF-8 encoding, which is what
/// `str::len` reports.
pub proof fn lemma_utf8_size_is_encoding_length(s: Seq<char>)
    ensures
        utf8_size(s) == vstd::utf8::encode_utf8(s).len(),
    decreases s.len(),
{
    if s.len() > 0 {
        lemma_utf8_size_is_encoding_length(s.drop_first());
        lemma_utf8_size_concat(seq![s[0]], s.drop_first());
        assert(seq![s[0]] + s.drop_first() == s);
        let one = seq![s[0]];
        assert(one.drop_last() =~= Seq::<char>::empty());
        assert(utf8_size(one.drop_last()) == 0);
        assert(one.last() == s[0]);
        assert(utf8_size(one) == utf8_width(s[0]));
        vstd::utf8::char_is_scalar(s[0]);
    }
}

proof fn lemma_utf8_size_mono(s: Seq<char>, p: int, a: int, b: int)
    requires
        0 <= p <= p + a <= p + b <= s.len(),
    ensures
        utf8_size(s.subrange(p, p + a)) + utf8_size(s.subrange(p + a, p + b)) == utf8_size(
            s.subrange(p, p + b),
        ),
        utf8_size(s.subrange(p, p + a)) <= utf8_size(s.subrange(p, p + b)),
{
    lemma_utf8_size_concat(s.subrange(p, p + a), s.subrange(p + a, p + b));
    assert(s.subrange(p, p + a) + s.subrange(p + a, p + b) == s.subrange(p, p + b));
}

fn utf8_len(c: char) -> (r: usize)
    ensures
        r == utf8_width(c),
        1 <= r <= 4,
{
    let u = c as u32;
    if u < 0x80 {
        1
    } else if u < 0x800 {
        2
    } else if u < 0x10000 {
        3
    } else {
        4
    }
}

fn splits_char_at(s: &Vec<char>, p: usize) -> (r: bool)
    requires
        p < s.len(),
    ensures
        r == four_bytes_split_char(s@, p as int),
{
    let mut k: usize = 0;
    let mut acc: usize = 0;
    assert(s@.subrange(p as int, p as int).len() == 0);
    while acc < 4 && p + k < s.len()
        invariant
            p + k <= s.len(),
            acc == utf8_size(s@.subrange(p as int, p + k)),
            acc <= 7,
            k > 0 ==> utf8_size(s@.subrange(p as int, p + k - 1)) < 4,
        decreases s.len() - p - k,
    {
        proof {
            assert(s@.subrange(p as int, p + k + 1).drop_last() == s@.subrange(p as int, p + k));
            assert(s@.subrange(p as int, p + k + 1).last() == s@[p + k]);
        }
        acc = acc + utf8_len(s[p + k]);
        k = k + 1;
    }
    proof {
        assert(s@.skip(p as int) == s@.subrange(p as int, s@.len() as int));
        lemma_utf8_size_mono(s@, p as int, k as int, s@.len() - p);
        if acc == 4 {
            assert(utf8_size(s@.subrange(p as int, p + k)) == 4);
        }
        if acc > 4 {
            assert forall|m: int| p <= m <= s@.len() implies #[trigger] utf8_size(
                s@.subrange(p as int, m),
            ) != 4 by {
                if m - p < k {
                    lemma_utf8_size_mono(s@, p as int, m - p, k - 1);
                } else {
                    lemma_utf8_size_mono(s@, p as int, k as int, m - p);
                }
            }
        }
    }
    acc > 4
}

fn year_at_index(s: &Vec<char>, p: usize) -> (r: Option<u16>)
    requires
        p < s.len(),
    ensures
        r == year_at(s@, p as int),
{
    if s.len() - p < 4 {
        return None;
    }
    let mut q = p;
    while q < p + 4
        invariant
            p <= q <= p + 4 <= s.len(),
            forall|m: int| p <= m < q ==> is_digit(#[trigger] s@[m]),
        decreases p + 4 - q,
    {
        if !char_is_digit(s[q]) {
            assert(s@.subrange(p as int, p + 4)[q - p] == s@[q as int]);
            return None;
        }
        q = q + 1;
    }
    let y = read_number(s, p, p + 4);
    assert(all_digits(s@.subrange(p as int, p + 4))) by {
        assert forall|i: int| 0 <= i < 4 implies is_digit(
            #[trigger] s@.subrange(p as int, p + 4)[i],
        ) by {
            assert(s@.subrange(p as int, p + 4)[i] == s@[p + i]);
        }
    }
    if 1900 <= y && y <= 2100 && (p == 0 || !char_is_digit(s[p - 1])) && (p + 4 == s.len()
        || !char_is_digit(s[p + 4])) {
        Some(y)
    } else {
        None
    }
}

/// The year search: `Ok(Some((p, year)))` for the first year, `Ok(None)` when
/// there is none, `Err(())` when the search would slice through a character.
fn find_year(s: &Vec<char>) -> (r: Result<Option<(usize, u16)>, ()>)
    ensures
        match first_year(s@, 0) {
            YearScan::Found(p, y) => r == Ok::<Option<(usize, u16)>, ()>(Some((p as usize, y)))
                && 0 <= p < s.len(),
            YearScan::Absent => r == Ok::<Option<(usize, u16)>, ()>(None),
            YearScan::SplitsChar => r is Err,
        },
{
    let mut p: usize = 0;
    proof {
        lemma_first_year_bounds(s@, 0);
    }
    while p < s.len()
        invariant
            p <= s.len(),
            first_year(s@, 0) == first_year(s@, p as int),
        decreases s.len() - p,
    {
        if splits_char_at(s, p) {
            return Err(());
        }
        match year_at_index(s, p) {
            Some(y) => {
                return Ok(Some((p, y)));
            },
            None => {},
        }
        p = p + 1;
    }
    Ok(None)
}

// ---------------------------------------------------------------------------
// The whole file name
// ---------------------------------------------------------------------------

/// The title read before index `i` of the stem: the trimmed text there, if
/// any.
pub open spec fn title_before(stem: Seq<char>, i: int) -> Option<Seq<char>> {
    let t = trim_ws(stem.take(i));
    if t.len() == 0 {
        None
    } else {
        Some(t)
    }
}

/// What a file name is read as. An episode marker takes precedence over a
/// year; the title is what comes before the marker or the year. `None` when
/// the year search would slice through a multi-byte character.
pub open spec fn media_of_name(name: Seq<char>) -> Option<MediaView> {
    let (raw, ext) = name_and_ext(name);
    let stem = stem_of(raw);
    match first_episode(stem, 0) {
        Some((i, season, episode)) => Some(
            MediaView {
                kind: MediaKind::Episode,
                title: title_before(stem, i),
                year: None,
                season: Some(season),
                episode: Some(episode),
                ext,
            },
        ),
        None => match first_year(stem, 0) {
            YearScan::Found(p, year) => Some(
                MediaView {
                    kind: MediaKind::Movie,
                    title: title_before(stem, p),
                    year: Some(year),
                    season: None,
                    episode: None,
                    ext,
                },
            ),
            YearScan::Absent => Some(
                MediaView {
                    kind: MediaKind::Unknown,
                    title: None,
                    year: None,
                    season: None,
                    episode: None,
                    ext,
                },
            ),
            YearScan::SplitsChar => None,
        },
    }
}

/// The file name that `parse_media` reads from a path: its last component,
/// or nothing.
pub open spec fn name_of_path(path: Seq<char>) -> Seq<char> {
    match file_name_of(path) {
        Some(n) => n,
        None => seq![],
    }
}

fn title_from(stem: &Vec<char>, i: usize) -> (r: Option<String>)
    requires
        i <= stem.len(),
    ensures
        opt_view(r) == title_before(stem@, i as int),
{
    let prefix = slice_chars(stem, 0, i);
    assert(prefix@ == stem@.take(i as int));
    let t = trim_whitespace(&prefix);
    if t.len() == 0 {
        None
    } else {
        Some(string_of(&t))
    }
}

/// Reads a file name (not a path) as a movie, an episode or neither.
/// `None` exactly where the year search would slice through a multi-byte
/// character.
pub fn media_from_file_name(name: &str) -> (r: Option<ParsedMedia>)
    ensures
        match media_of_name(name@) {
            Some(m) => r matches Some(p) && p@ == m,
            None => r is None,
        },
        r matches Some(p) ==> media_shape_ok(p@),
{
    proof {
        lemma_media_shape(name@);
    }
    let chars = chars_of(name);
    let (raw, ext_chars) = split_name_ext(&chars);
    let ext = string_of(&ext_chars);
    let st = stem(&raw);
    match find_episode(&st) {
        Some((i, season, episode)) => {
            return Some(
                ParsedMedia {
                    kind: MediaKind::Episode,
                    title_guess: title_from(&st, i),
                    year_guess: None,
                    season: Some(season),
                    episode: Some(episode),
                    ext,
                },
            );
        },
        None => {},
    }
    match find_year(&st) {
        Ok(Some((p, year))) => Some(
            ParsedMedia {
                kind: MediaKind::Movie,
                title_guess: title_from(&st, p),
                year_guess: Some(year),
                season: None,
                episode: None,
                ext,
            },
        ),
        Ok(None) => Some(
            ParsedMedia {
                kind: MediaKind::Unknown,
                title_guess: None,
                year_guess: None,
                season: None,
                episode: None,
                ext,
            },
        ),
        Err(()) => None,
    }
}

/// Reads the last component of `path` as a movie, an episode or neither.
pub fn parse_media(path: &str) -> (r: ParsedMedia)
    requires
        media_of_name(name_of_path(path@)) is Some,
    ensures
        media_of_name(name_of_path(path@)) == Some(r@),
        media_shape_ok(r@),
        is_plain_name(path@) ==> media_of_name(path@) == Some(r@),
{
    let name = try_name_of_path(path);
    match media_from_file_name(name.as_str()) {
        Some(m) => m,
        None => {
            // The precondition excludes this case.
            assert(false);
            ParsedMedia {
                kind: MediaKind::Unknown,
                title_guess: None,
                year_guess: None,
                season: None,
                episode: None,
                ext: String::new(),
            }
        },
    }
}

/// The file name of `path`, empty when it has none.
fn try_name_of_path(path: &str) -> (r: String)
    ensures
        r@ == name_of_path(path@),
        is_plain_name(path@) ==> r@ == path@,
{
    match path_file_name(path) {
        Some(n) => n,
        None => String::new(),
    }
}

/// `parse_media` for every path: `None` exactly where the year search in the
/// file name would slice through a multi-byte character.
pub fn try_parse_media(path: &str) -> (r: Option<ParsedMedia>)
    ensures
        match media_of_name(name_of_path(path@)) {
            Some(m) => r matches Some(p) && p@ == m,
            None => r is None,
        },
        r matches Some(p) ==> media_shape_ok(p@),
        is_plain_name(path@) ==> match media_of_name(path@) {
            Some(m) => r matches Some(p) && p@ == m,
            None => r is None,
        },
{
    let n = try_name_of_path(path);
    if media_from_file_name(n.as_str()).is_none() {
        return None;
    }
    Some(parse_media(path))
}


// ---------------------------------------------------------------------------
// What a reading looks like
// ---------------------------------------------------------------------------

/// The shape of every reading of a file name: an episode has a season below
/// 100 and an episode below 1000 and no year; a movie has a year from 1900 to
/// 2100 and no season or episode; an unknown file has nothing but its
/// extension. A title is non-empty clean text without `.`, `_` or `-`, and
/// the extension is at most five ASCII letters.
pub open spec fn media_shape_ok(m: MediaView) -> bool {
    &&& is_extension(m.ext)
    &&& match m.kind {
        MediaKind::Episode => m.year is None && (m.season matches Some(s) && s < 100) && (
        m.episode matches Some(e) && e < 1000),
        MediaKind::Movie => m.season is None && m.episode is None && (m.year matches Some(y)
            && 1900 <= y <= 2100),
        MediaKind::Unknown => m.title is None && m.year is None && m.season is None && m.episode
            is None,
    }
    &&& (m.title matches Some(t) ==> t.len() > 0 && is_clean(t) && forall|i: int|
        0 <= i < t.len() ==> !is_separator(#[trigger] t[i]))
}

proof fn lemma_run_digits(s: Seq<char>, p: int, q: int)
    requires
        0 <= p <= q < p + digit_run(s, p),
    ensures
        is_digit(s[q]),
        q < s.len(),
    decreases q - p,
{
    if q > p {
        lemma_run_digits(s, p + 1, q);
    }
}

proof fn lemma_number_below(s: Seq<char>, a: int, b: int, n: nat)
    requires
        0 <= a < b <= s.len(),
        b - a <= n,
        n <= 4,
        forall|q: int| a <= q < b ==> is_digit(#[trigger] s[q]),
    ensures
        (number_in(s, a, b) as nat) < pow10(n),
        number_in(s, a, b) as nat == digits_value(s.subrange(a, b)),
{
    let d = s.subrange(a, b);
    assert forall|i: int| 0 <= i < d.len() implies is_digit(#[trigger] d[i]) by {
        assert(d[i] == s[a + i]);
    }
    lemma_digits_value_bound(d);
    reveal_with_fuel(pow10, 5);
    assert(pow10(d.len()) <= pow10(n)) by {
        if d.len() < n {
            if d.len() == 1 {
            } else if d.len() == 2 {
            } else if d.len() == 3 {
            }
        }
    }
}

proof fn lemma_episode_shape(s: Seq<char>, i: int)
    requires
        0 <= i < s.len(),
        episode_at(s, i) is Some,
    ensures
        episode_at(s, i) matches Some((a, b)) && a < 100 && b < 1000,
{
    reveal_with_fuel(pow10, 4);
    let c = s[i];
    if (c == 'S' || c == 's') && i + 3 < s.len() {
        let j = i + 1 + min_nat(digit_run(s, i + 1), 2);
        let k = j + 1 + min_nat(digit_run(s, j + 1), 3);
        assert forall|q: int| i + 1 <= q < j implies is_digit(#[trigger] s[q]) by {
            lemma_run_digits(s, i + 1, q);
        }
        assert forall|q: int| j + 1 <= q < k implies is_digit(#[trigger] s[q]) by {
            lemma_run_digits(s, j + 1, q);
        }
        if k > s.len() {
            lemma_run_digits(s, j + 1, k - 1);
        }
        lemma_number_below(s, i + 1, j, 2);
        lemma_number_below(s, j + 1, k, 3);
    } else {
        let j = i + min_nat(digit_run(s, i), 2);
        let k = j + 1 + min_nat(digit_run(s, j + 1), 3);
        assert forall|q: int| i <= q < j implies is_digit(#[trigger] s[q]) by {
            lemma_run_digits(s, i, q);
        }
        assert forall|q: int| j + 1 <= q < k implies is_digit(#[trigger] s[q]) by {
            lemma_run_digits(s, j + 1, q);
        }
        if k > s.len() {
            lemma_run_digits(s, j + 1, k - 1);
        }
        lemma_number_below(s, i, j, 2);
        lemma_number_below(s, j + 1, k, 3);
    }
}

proof fn lemma_first_episode_at(s: Seq<char>, from: int)
    ensures
        first_episode(s, from) matches Some((i, a, b)) ==> 0 <= i < s.len() && episode_at(s, i)
            == Some((a, b)),
    decreases s.len() - from,
{
    if 0 <= from < s.len() && episode_at(s, from) is None {
        lemma_first_episode_at(s, from + 1);
    }
}

proof fn lemma_first_year_at(s: Seq<char>, from: int)
    ensures
        first_year(s, from) matches YearScan::Found(p, y) ==> year_at(s, p) == Some(y),
    decreases s.len() - from,
{
    if 0 <= from < s.len() && !four_bytes_split_char(s, from) && year_at(s, from) is None {
        lemma_first_year_at(s, from + 1);
    }
}

/// A title taken from the stem is clean text without separators.
proof fn lemma_title_shape(raw: Seq<char>, i: int)
    requires
        0 <= i <= stem_of(raw).len(),
    ensures
        title_before(stem_of(raw), i) matches Some(t) ==> t.len() > 0 && is_clean(t) && forall|
            k: int,
        | 0 <= k < t.len() ==> !is_separator(#[trigger] t[k]),
{
    let spaced = raw.map_values(|c: char| separator_to_space(c));
    let stem = stem_of(raw);
    let pred = |c: char| !is_separator(c);
    assert forall|k: int| 0 <= k < spaced.len() implies is_ws(#[trigger] spaced[k]) || pred(
        spaced[k],
    ) by {
        assert(spaced[k] == separator_to_space(raw[k]));
    }
    lemma_collapse_chars(spaced, pred);
    lemma_collapse_clean(spaced);
    lemma_trim_prefix_clean(stem, i);
    let t = trim_ws(stem.take(i));
    let k0 = choose|k: int| 0 <= k <= i && t == stem.take(k);
    assert forall|k: int| 0 <= k < t.len() implies !is_separator(#[trigger] t[k]) by {
        assert(t[k] == stem[k]);
        assert(stem[k] == ' ' || pred(stem[k]));
    }
}

/// Every reading of a file name has the shape `media_shape_ok` describes.
pub proof fn lemma_media_shape(name: Seq<char>)
    ensures
        media_of_name(name) matches Some(m) ==> media_shape_ok(m),
{
    let (raw, ext) = name_and_ext(name);
    let stem = stem_of(raw);
    match last_index_of(name, '.') {
        Some(k) => {},
        None => {},
    }
    assert(is_extension(ext));
    lemma_first_episode_at(stem, 0);
    lemma_first_year_at(stem, 0);
    lemma_first_year_bounds(stem, 0);
    match first_episode(stem, 0) {
        Some((i, a, b)) => {
            lemma_episode_shape(stem, i);
            lemma_title_shape(raw, i);
        },
        None => match first_year(stem, 0) {
            YearScan::Found(p, y) => {
                lemma_title_shape(raw, p);
            },
            _ => {},
        },
    }
}


/// The stem a file name's reading is made from.
pub open spec fn stem_of_name(name: Seq<char>) -> Seq<char> {
    stem_of(name_and_ext(name).0)
}

/// The season of the marker at `i` (0 when there is none).
pub open spec fn marker_season(s: Seq<char>, i: int) -> u16 {
    match episode_at(s, i) {
        Some((a, _)) => a,
        None => 0,
    }
}

/// The episode of the marker at `i` (0 when there is none).
pub open spec fn marker_episode(s: Seq<char>, i: int) -> u16 {
    match episode_at(s, i) {
        Some((_, b)) => b,
        None => 0,
    }
}

proof fn lemma_first_episode_is(s: Seq<char>, k: int, i: int)
    requires
        0 <= k <= i < s.len(),
        episode_at(s, i) is Some,
        forall|j: int| k <= j < i ==> episode_at(s, j) is None,
    ensures
        first_episode(s, k) == Some((i, marker_season(s, i), marker_episode(s, i))),
    decreases i - k,
{
    if k < i {
        lemma_first_episode_is(s, k + 1, i);
    }
}

/// An episode marker wins over a year: when the stem holds a marker, the
/// name is read as an episode with the season and episode of the first
/// marker, no year, and the title before that marker, whether or not a year
/// also occurs in the name.
pub proof fn lemma_episode_marker_wins(name: Seq<char>, i: int)
    requires
        0 <= i < stem_of_name(name).len(),
        episode_at(stem_of_name(name), i) is Some,
        forall|j: int| 0 <= j < i ==> episode_at(stem_of_name(name), j) is None,
    ensures
        media_of_name(name) is Some,
        media_of_name(name)->0.kind == MediaKind::Episode,
        media_of_name(name)->0.year is None,
        media_of_name(name)->0.season == Some(marker_season(stem_of_name(name), i)),
        media_of_name(name)->0.episode == Some(marker_episode(stem_of_name(name), i)),
        media_of_name(name)->0.title == title_before(stem_of_name(name), i),
{
    lemma_first_episode_is(stem_of_name(name), 0, i);
}

/// Without any episode marker in the stem, a name is never read as an
/// episode: it is a movie exactly when a year is found.
pub proof fn lemma_no_marker_no_episode(name: Seq<char>)
    requires
        forall|j: int| 0 <= j < stem_of_name(name).len() ==> episode_at(stem_of_name(name), j) is None,
    ensures
        media_of_name(name) matches Some(m) ==> m.kind != MediaKind::Episode && (m.kind
            == MediaKind::Movie <==> first_year(stem_of_name(name), 0) is Found),
{
    lemma_first_episode_none(stem_of_name(name), 0);
}

proof fn lemma_first_episode_none(s: Seq<char>, k: int)
    requires
        0 <= k,
        forall|j: int| k <= j < s.len() ==> episode_at(s, j) is None,
    ensures
        first_episode(s, k) is None,
    decreases s.len() - k,
{
    if k < s.len() {
        lemma_first_episode_none(s, k + 1);
    }
}

proof fn lemma_digit_run_from(s: Seq<char>, p: int, d: int)
    requires
        0 <= p,
        0 <= d,
        p + d <= s.len(),
        forall|q: int| p <= q < p + d ==> is_digit(#[trigger] s[q]),
    ensures
        digit_run(s, p) >= d,
        (p + d == s.len() || !is_digit(s[p + d])) ==> digit_run(s, p) == d,
    decreases d,
{
    if d > 0 {
        lemma_digit_run_from(s, p + 1, d - 1);
    }
}

/// What an `S..E..` marker reads as: `S` or `s`, one or two digits, `E` or
/// `e`, then digits, of which the first three at most make the episode.
pub proof fn lemma_season_episode_marker(s: Seq<char>, i: int, d1: int, d2: int)
    requires
        0 <= i,
        s[i] == 'S' || s[i] == 's',
        1 <= d1 <= 2,
        i + 1 + d1 < s.len(),
        forall|q: int| i + 1 <= q < i + 1 + d1 ==> is_digit(#[trigger] s[q]),
        s[i + 1 + d1] == 'E' || s[i + 1 + d1] == 'e',
        1 <= d2 <= 3,
        i + 2 + d1 + d2 <= s.len(),
        forall|q: int| i + 2 + d1 <= q < i + 2 + d1 + d2 ==> is_digit(#[trigger] s[q]),
        d2 == 3 || i + 2 + d1 + d2 == s.len() || !is_digit(s[i + 2 + d1 + d2]),
    ensures
        episode_at(s, i) == Some(
            (
                digits_value(s.subrange(i + 1, i + 1 + d1)) as u16,
                digits_value(s.subrange(i + 2 + d1, i + 2 + d1 + d2)) as u16,
            ),
        ),
{
    lemma_digit_run_from(s, i + 1, d1);
    lemma_digit_run_from(s, i + 2 + d1, d2);
}

/// What an `NxM` marker reads as: one or two digits, `x` or `X`, then
/// digits, of which the first three at most make the episode.
pub proof fn lemma_cross_marker(s: Seq<char>, i: int, d1: int, d2: int)
    requires
        0 <= i,
        1 <= d1 <= 2,
        i + d1 < s.len(),
        forall|q: int| i <= q < i + d1 ==> is_digit(#[trigger] s[q]),
        s[i + d1] == 'x' || s[i + d1] == 'X',
        1 <= d2 <= 3,
        i + 1 + d1 + d2 <= s.len(),
        forall|q: int| i + 1 + d1 <= q < i + 1 + d1 + d2 ==> is_digit(#[trigger] s[q]),
        d2 == 3 || i + 1 + d1 + d2 == s.len() || !is_digit(s[i + 1 + d1 + d2]),
    ensures
        episode_at(s, i) == Some(
            (
                digits_value(s.subrange(i, i + d1)) as u16,
                digits_value(s.subrange(i + 1 + d1, i + 1 + d1 + d2)) as u16,
            ),
        ),
{
    lemma_digit_run_from(s, i, d1);
    lemma_digit_run_from(s, i + 1 + d1, d2);
    assert(is_digit(s[i]));
}

} // verus!
