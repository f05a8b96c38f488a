//! Rendering target names from templates with the placeholders `{title}`,
//! `{year}`, `{season}`, `{season:NN}`, `{episode}`, `{episode:NN}` and
//! `{ext}`.
use vstd::prelude::*;

use crate::parser::{MediaView, ParsedMedia};
use crate::text::{
    append_chars, chars_of, is_clean, lemma_collapse_clean, lemma_collapse_clean_id, lemma_find,
    lemma_trim_clean, matches_at, is_digit, collapse_whitespace, collapse_ws, decimal, decimal_chars, find,
    find_in_suffix, pad_with_zeros, pad_zeros, parse_bounded, parse_usize_spec, replace_all,
    replace_chars, slice_chars, string_of, trim_end_matches, trim_end_matching,
    trim_start_matches, trim_start_matching, trim_whitespace, trim_ws,
};

verus! {

/// The decimal text of an optional number; nothing for `None`.
pub open spec fn opt_decimal(v: Option<u16>) -> Seq<char> {
    match v {
        Some(n) => decimal(n as nat),
        None => seq![],
    }
}

/// `{key:`, the start of a padded placeholder.
pub open spec fn padded_needle(key: Seq<char>) -> Seq<char> {
    seq!['{'] + key + seq![':']
}

/// `{key}`, the plain placeholder.
pub open spec fn plain_needle(key: Seq<char>) -> Seq<char> {
    seq!['{'] + key + seq!['}']
}

/// The width written in a padded placeholder `token` (from `{key:` up to and
/// including the first `}`): what is left after removing the leading
/// `{key:`s and the trailing `}`s, read as a `usize`; 0 if it does not read.
pub open spec fn padded_width(token: Seq<char>, key: Seq<char>) -> nat {
    match parse_usize_spec(trim_end_matches(trim_start_matches(token, padded_needle(key)), '}')) {
        Some(w) => w as nat,
        None => 0,
    }
}

/// What a padded placeholder of the given width becomes: the number padded
/// with zeros to the width (just the number for width 0), nothing without a
/// number.
pub open spec fn padded_value(width: nat, v: Option<u16>) -> Seq<char> {
    match v {
        Some(n) => if width > 0 {
            pad_zeros(decimal(n as nat), width)
        } else {
            decimal(n as nat)
        },
        None => seq![],
    }
}

/// Replaces, from left to right, each padded placeholder `{key:...}` of `t`
/// (up to the first `}` after it) by its value; text after a placeholder
/// that has no closing `}` is left as it is.
pub open spec fn pad_pass(t: Seq<char>, key: Seq<char>, v: Option<u16>) -> Seq<char>
    decreases t.len(),
{
    match find(t, padded_needle(key)) {
        None => t,
        Some(i) => match find(t.skip(i), seq!['}']) {
            None => t,
            Some(j) => if 0 <= i && 0 <= j && i + j + 1 <= t.len() {
                t.take(i) + padded_value(padded_width(t.subrange(i, i + j + 1), key), v)
                    + pad_pass(t.skip(i + j + 1), key, v)
            } else {
                t
            },
        },
    }
}

/// Padding to a width above `u16::MAX` makes `format!` panic. This holds when
/// every padded placeholder that `pad_pass` replaces by a number asks for a
/// width of at most `u16::MAX`.
pub open spec fn pad_fits(t: Seq<char>, key: Seq<char>, v: Option<u16>) -> bool
    decreases t.len(),
{
    match find(t, padded_needle(key)) {
        None => true,
        Some(i) => match find(t.skip(i), seq!['}']) {
            None => true,
            Some(j) => if 0 <= i && 0 <= j && i + j + 1 <= t.len() {
                (v is None || padded_width(t.subrange(i, i + j + 1), key) <= u16::MAX)
                    && pad_fits(t.skip(i + j + 1), key, v)
            } else {
                true
            },
        },
    }
}

/// Both kinds of placeholder for `key` replaced by the value.
pub open spec fn replace_padded_spec(t: Seq<char>, key: Seq<char>, v: Option<u16>) -> Seq<char> {
    replace_all(pad_pass(t, key, v), plain_needle(key), opt_decimal(v))
}

/// Whitespace collapsed to single spaces and trimmed.
pub open spec fn clean_spaces_spec(s: Seq<char>) -> Seq<char> {
    trim_ws(collapse_ws(s))
}

pub open spec fn title_text(m: MediaView) -> Seq<char> {
    match m.title {
        Some(t) => t,
        None => seq![],
    }
}

/// The template after `{title}` and `{year}` are replaced.
pub open spec fn after_title_year(format: Seq<char>, m: MediaView) -> Seq<char> {
    replace_all(
        replace_all(format, "{title}"@, title_text(m)),
        "{year}"@,
        opt_decimal(m.year),
    )
}

/// The template after the season placeholders are replaced as well.
pub open spec fn after_season(format: Seq<char>, m: MediaView) -> Seq<char> {
    replace_padded_spec(after_title_year(format, m), "season"@, m.season)
}

/// The rendered name: `{title}`, `{year}`, the season and episode
/// placeholders and `{ext}` replaced in this order, each on the result of the
/// one before; then whitespace collapsed and trimmed.
pub open spec fn render(format: Seq<char>, m: MediaView) -> Seq<char> {
    let t4 = replace_padded_spec(after_season(format, m), "episode"@, m.episode);
    clean_spaces_spec(replace_all(t4, "{ext}"@, m.ext))
}

/// Rendering does not panic: no padded season or episode placeholder asks
/// for a width above `u16::MAX`.
pub open spec fn render_fits(format: Seq<char>, m: MediaView) -> bool {
    &&& pad_fits(after_title_year(format, m), "season"@, m.season)
    &&& pad_fits(after_season(format, m), "episode"@, m.episode)
}

fn opt_decimal_chars(v: Option<u16>) -> (r: Vec<char>)
    ensures
        r@ == opt_decimal(v),
{
    match v {
        Some(n) => decimal_chars(n as u64),
        None => Vec::new(),
    }
}

fn needles(key: &Vec<char>) -> (r: (Vec<char>, Vec<char>))
    ensures
        r.0@ == padded_needle(key@),
        r.1@ == plain_needle(key@),
{
    let mut padded: Vec<char> = Vec::new();
    padded.push('{');
    append_chars(&mut padded, key);
    padded.push(':');
    let mut plain: Vec<char> = Vec::new();
    plain.push('{');
    append_chars(&mut plain, key);
    plain.push('}');
    assert(padded@ == padded_needle(key@));
    assert(plain@ == plain_needle(key@));
    (padded, plain)
}

fn width_of(token: &Vec<char>, needle: &Vec<char>, key: Ghost<Seq<char>>) -> (w: usize)
    requires
        needle@ == padded_needle(key@),
    ensures
        w as nat == padded_width(token@, key@),
{
    let inner = trim_end_matching(&trim_start_matching(token, needle), '}');
    match parse_bounded(&inner, 0, inner.len(), usize::MAX as u64) {
        Some(w) => {
            assert(inner@.subrange(0, inner@.len() as int) == inner@);
            w as usize
        },
        None => {
            assert(inner@.subrange(0, inner@.len() as int) == inner@);
            0
        },
    }
}

/// `replace_padded_spec`, computed.
fn replace_padded(text: &Vec<char>, key: &Vec<char>, value: Option<u16>) -> (r: Vec<char>)
    requires
        pad_fits(text@, key@, value),
    ensures
        r@ == replace_padded_spec(text@, key@, value),
{
    let (needle, plain) = needles(key);
    let mut close: Vec<char> = Vec::new();
    close.push('}');
    assert(close@ == seq!['}']);
    let mut out: Vec<char> = Vec::new();
    let mut pos: usize = 0;
    assert(text@.skip(0) == text@);
    loop
        invariant_except_break
            out@ + pad_pass(text@.skip(pos as int), key@, value) == pad_pass(text@, key@, value),
        invariant
            pos <= text.len(),
            needle@ == padded_needle(key@),
            close@ == seq!['}'],
            pad_fits(text@.skip(pos as int), key@, value),
        ensures
            out@ == pad_pass(text@, key@, value),
        decreases text.len() - pos,
    {
        let ghost u = text@.skip(pos as int);
        match find_in_suffix(text, &needle, pos) {
            None => {
                let rest = slice_chars(text, pos, text.len());
                assert(rest@ == u);
                assert(pad_pass(u, key@, value) == u);
                append_chars(&mut out, &rest);
                break ;
            },
            Some(abs) => {
                let ghost i = abs - pos;
                proof {
                    crate::text::lemma_find(u, needle@);
                    assert(u.skip(i) == text@.skip(abs as int));
                }
                match find_in_suffix(text, &close, abs) {
                    None => {
                        let rest = slice_chars(text, pos, text.len());
                        assert(rest@ == u);
                        assert(pad_pass(u, key@, value) == u);
                        append_chars(&mut out, &rest);
                        break ;
                    },
                    Some(end) => {
                        let ghost j = end - abs;
                        proof {
                            crate::text::lemma_find(text@.skip(abs as int), close@);
                            assert(u.subrange(i, i + j + 1) == text@.subrange(
                                abs as int,
                                end + 1,
                            ));
                            assert(u.take(i) == text@.subrange(pos as int, abs as int));
                            assert(u.skip(i + j + 1) == text@.skip(end + 1));
                        }
                        let token = slice_chars(text, abs, end + 1);
                        let width = width_of(&token, &needle, Ghost(key@));
                        let replacement = match value {
                            Some(n) => if width > 0 {
                                pad_with_zeros(&decimal_chars(n as u64), width)
                            } else {
                                decimal_chars(n as u64)
                            },
                            None => Vec::new(),
                        };
                        let before = slice_chars(text, pos, abs);
                        proof {
                            assert(out@ + (before@ + replacement@ + pad_pass(
                                text@.skip(end + 1),
                                key@,
                                value,
                            )) == ((out@ + before@) + replacement@) + pad_pass(
                                text@.skip(end + 1),
                                key@,
                                value,
                            ));
                        }
                        append_chars(&mut out, &before);
                        append_chars(&mut out, &replacement);
                        pos = end + 1;
                    },
                }
            },
        }
    }
    let digits = opt_decimal_chars(value);
    proof {
        reveal_strlit("}");
    }
    replace_chars(&out, &plain, &digits)
}

/// Collapses whitespace to single spaces and trims both ends.
fn clean_spaces(input: &Vec<char>) -> (r: Vec<char>)
    ensures
        r@ == clean_spaces_spec(input@),
{
    let joined = collapse_whitespace(input);
    trim_whitespace(&joined)
}

fn title_chars(media: &ParsedMedia) -> (r: Vec<char>)
    ensures
        r@ == title_text(media@),
{
    match &media.title_guess {
        Some(t) => chars_of(t.as_str()),
        None => Vec::new(),
    }
}

/// Whether rendering `format` for `media` stays within the widths that
/// `format!` accepts (see `render_fits`).
pub fn template_fits(format: &str, media: &ParsedMedia) -> (r: bool)
    ensures
        r == render_fits(format@, media@),
{
    let f = chars_of(format);
    let t2 = title_year_replaced(&f, media);
    let season_key = chars_of("season");
    if !padded_fits(&t2, &season_key, media.season) {
        return false;
    }
    let t3 = replace_padded(&t2, &season_key, media.season);
    let episode_key = chars_of("episode");
    padded_fits(&t3, &episode_key, media.episode)
}

fn title_year_replaced(f: &Vec<char>, media: &ParsedMedia) -> (r: Vec<char>)
    ensures
        r@ == after_title_year(f@, media@),
{
    let title_needle = chars_of("{title}");
    let year_needle = chars_of("{year}");
    proof {
        reveal_strlit("{title}");
        reveal_strlit("{year}");
    }
    let t1 = replace_chars(f, &title_needle, &title_chars(media));
    replace_chars(&t1, &year_needle, &opt_decimal_chars(media.year_guess))
}

/// `pad_fits`, computed.
fn padded_fits(text: &Vec<char>, key: &Vec<char>, value: Option<u16>) -> (r: bool)
    ensures
        r == pad_fits(text@, key@, value),
{
    let (needle, _plain) = needles(key);
    let mut close: Vec<char> = Vec::new();
    close.push('}');
    assert(close@ == seq!['}']);
    let mut pos: usize = 0;
    assert(text@.skip(0) == text@);
    loop
        invariant
            pos <= text.len(),
            needle@ == padded_needle(key@),
            close@ == seq!['}'],
            pad_fits(text@, key@, value) == pad_fits(text@.skip(pos as int), key@, value),
        decreases text.len() - pos,
    {
        let ghost u = text@.skip(pos as int);
        match find_in_suffix(text, &needle, pos) {
            None => {
                return true;
            },
            Some(abs) => {
                let ghost i = abs - pos;
                proof {
                    crate::text::lemma_find(u, needle@);
                    assert(u.skip(i) == text@.skip(abs as int));
                }
                match find_in_suffix(text, &close, abs) {
                    None => {
                        return true;
                    },
                    Some(end) => {
                        let ghost j = end - abs;
                        proof {
                            crate::text::lemma_find(text@.skip(abs as int), close@);
                            assert(u.subrange(i, i + j + 1) == text@.subrange(
                                abs as int,
                                end + 1,
                            ));
                            assert(u.skip(i + j + 1) == text@.skip(end + 1));
                        }
                        if value.is_some() {
                            let token = slice_chars(text, abs, end + 1);
                            let width = width_of(&token, &needle, Ghost(key@));
                            if width > 65535 {
                                return false;
                            }
                        }
                        pos = end + 1;
                    },
                }
            },
        }
    }
}

/// Renders the target name for `media` from the template `format`.
pub fn render_template(format: &str, media: &ParsedMedia) -> (r: String)
    requires
        render_fits(format@, media@),
    ensures
        r@ == render(format@, media@),
        is_clean(r@),
{
    proof {
        lemma_render_clean(format@, media@);
    }
    let f = chars_of(format);
    let t2 = title_year_replaced(&f, media);
    let season_key = chars_of("season");
    let t3 = replace_padded(&t2, &season_key, media.season);
    let episode_key = chars_of("episode");
    let t4 = replace_padded(&t3, &episode_key, media.episode);
    let ext_needle = chars_of("{ext}");
    proof {
        reveal_strlit("{ext}");
    }
    let t5 = replace_chars(&t4, &ext_needle, &chars_of(media.ext.as_str()));
    string_of(&clean_spaces(&t5))
}


/// A rendered name is clean: its only whitespace is single spaces between
/// other characters.
pub proof fn lemma_render_clean(format: Seq<char>, m: MediaView)
    ensures
        is_clean(render(format, m)),
{
    let t = replace_all(
        replace_padded_spec(after_season(format, m), "episode"@, m.episode),
        "{ext}"@,
        m.ext,
    );
    lemma_collapse_clean(t);
    lemma_trim_clean(collapse_ws(t));
}

/// Cleaning whitespace twice is cleaning it once.
pub proof fn lemma_clean_spaces_idempotent(s: Seq<char>)
    ensures
        clean_spaces_spec(clean_spaces_spec(s)) == clean_spaces_spec(s),
{
    lemma_collapse_clean(s);
    lemma_trim_clean(collapse_ws(s));
    lemma_collapse_clean_id(collapse_ws(s));
    lemma_trim_clean(collapse_ws(s));
}

/// Text without `{` is left alone by replacing a pattern that starts with `{`.
proof fn lemma_replace_without_brace(s: Seq<char>, p: Seq<char>, r: Seq<char>)
    requires
        p.len() > 0,
        p[0] == '{',
        forall|i: int| 0 <= i < s.len() ==> s[i] != '{',
    ensures
        replace_all(s, p, r) == s,
    decreases s.len(),
{
    if s.len() >= p.len() {
        assert(s.take(p.len() as int)[0] == s[0]);
        assert(s.take(p.len() as int) != p);
        let t = s.drop_first();
        assert forall|i: int| 0 <= i < t.len() implies t[i] != '{' by {
            assert(t[i] == s[i + 1]);
        }
        lemma_replace_without_brace(t, p, r);
        assert(seq![s[0]] + t == s);
    }
}

/// Text without `{` has no padded placeholder.
proof fn lemma_pad_without_brace(s: Seq<char>, key: Seq<char>, v: Option<u16>)
    requires
        forall|i: int| 0 <= i < s.len() ==> s[i] != '{',
    ensures
        pad_pass(s, key, v) == s,
        pad_fits(s, key, v),
{
    lemma_find(s, padded_needle(key));
    match find(s, padded_needle(key)) {
        Some(i) => {
            assert(s.subrange(i, i + padded_needle(key).len())[0] == s[i]);
            assert(padded_needle(key)[0] == '{');
        },
        None => {},
    }
}

/// A template without placeholders (no `{` at all) renders to itself, with
/// its whitespace cleaned, whatever the media.
pub proof fn lemma_render_literal(format: Seq<char>, m: MediaView)
    requires
        forall|i: int| 0 <= i < format.len() ==> format[i] != '{',
    ensures
        render(format, m) == clean_spaces_spec(format),
        render_fits(format, m),
{
    reveal_strlit("{title}");
    reveal_strlit("{year}");
    reveal_strlit("{ext}");
    lemma_replace_without_brace(format, "{title}"@, title_text(m));
    lemma_replace_without_brace(format, "{year}"@, opt_decimal(m.year));
    assert(after_title_year(format, m) == format);
    lemma_pad_without_brace(format, "season"@, m.season);
    assert(plain_needle("season"@)[0] == '{');
    lemma_replace_without_brace(format, plain_needle("season"@), opt_decimal(m.season));
    assert(after_season(format, m) == format);
    lemma_pad_without_brace(format, "episode"@, m.episode);
    assert(plain_needle("episode"@)[0] == '{');
    lemma_replace_without_brace(format, plain_needle("episode"@), opt_decimal(m.episode));
    lemma_replace_without_brace(format, "{ext}"@, m.ext);
}


/// Replacing a pattern that starts with `{` leaves a `{`-free prefix alone.
proof fn lemma_replace_after_plain_prefix(x: Seq<char>, rest: Seq<char>, p: Seq<char>, r: Seq<char>)
    requires
        p.len() > 0,
        p[0] == '{',
        forall|i: int| 0 <= i < x.len() ==> x[i] != '{',
    ensures
        replace_all(x + rest, p, r) == x + replace_all(rest, p, r),
    decreases x.len(),
{
    let s = x + rest;
    if x.len() == 0 {
        assert(s == rest);
    } else if s.len() < p.len() {
        assert(replace_all(rest, p, r) == rest);
    } else {
        assert(s.take(p.len() as int)[0] == x[0]);
        assert(s.take(p.len() as int) != p);
        let x1 = x.drop_first();
        assert forall|i: int| 0 <= i < x1.len() implies x1[i] != '{' by {
            assert(x1[i] == x[i + 1]);
        }
        lemma_replace_after_plain_prefix(x1, rest, p, r);
        assert(s.drop_first() == x1 + rest);
        assert(seq![x[0]] + (x1 + rest) == s);
        assert(seq![s[0]] + (x1 + replace_all(rest, p, r)) == x + replace_all(rest, p, r));
    }
}

/// A template made of `{`-free text around one `{title}` renders to that
/// text around the title (nothing when there is no title), whitespace
/// cleaned, provided the title holds no `{`.
pub proof fn lemma_title_placeholder(x: Seq<char>, y: Seq<char>, m: MediaView)
    requires
        forall|i: int| 0 <= i < x.len() ==> x[i] != '{',
        forall|i: int| 0 <= i < y.len() ==> y[i] != '{',
        forall|i: int| 0 <= i < title_text(m).len() ==> title_text(m)[i] != '{',
    ensures
        render(x + "{title}"@ + y, m) == clean_spaces_spec(x + title_text(m) + y),
        render_fits(x + "{title}"@ + y, m),
{
    reveal_strlit("{title}");
    reveal_strlit("{year}");
    reveal_strlit("{ext}");
    let t = title_text(m);
    let f = x + "{title}"@ + y;
    assert(f == x + ("{title}"@ + y));
    lemma_replace_after_plain_prefix(x, "{title}"@ + y, "{title}"@, t);
    let s = "{title}"@ + y;
    assert(s.take(7) == "{title}"@);
    assert(s.skip(7) == y);
    lemma_replace_without_brace(y, "{title}"@, t);
    let w = x + t + y;
    assert(replace_all(f, "{title}"@, t) == w);
    assert forall|i: int| 0 <= i < w.len() implies w[i] != '{' by {
        if i < x.len() {
            assert(w[i] == x[i]);
        } else if i < x.len() + t.len() {
            assert(w[i] == t[i - x.len()]);
        } else {
            assert(w[i] == y[i - x.len() - t.len()]);
        }
    }
    lemma_replace_without_brace(w, "{year}"@, opt_decimal(m.year));
    assert(after_title_year(f, m) == w);
    lemma_pad_without_brace(w, "season"@, m.season);
    assert(plain_needle("season"@)[0] == '{');
    lemma_replace_without_brace(w, plain_needle("season"@), opt_decimal(m.season));
    assert(after_season(f, m) == w);
    lemma_pad_without_brace(w, "episode"@, m.episode);
    assert(plain_needle("episode"@)[0] == '{');
    lemma_replace_without_brace(w, plain_needle("episode"@), opt_decimal(m.episode));
    lemma_replace_without_brace(w, "{ext}"@, m.ext);
}

/// A missing title renders exactly as an empty one: every `{title}` is
/// replaced, by nothing.
pub proof fn lemma_missing_title_is_empty(format: Seq<char>, m: MediaView)
    requires
        m.title is None,
    ensures
        render(format, m) == render(format, MediaView { title: Some(Seq::<char>::empty()), ..m }),
        render_fits(format, m) == render_fits(
            format,
            MediaView { title: Some(Seq::<char>::empty()), ..m },
        ),
{
}


/// Text without any occurrence of `p` is left alone by replacing `p`.
proof fn lemma_replace_no_match(s: Seq<char>, p: Seq<char>, r: Seq<char>)
    requires
        p.len() > 0,
        forall|i: int| !matches_at(s, p, i),
    ensures
        replace_all(s, p, r) == s,
    decreases s.len(),
{
    if s.len() >= p.len() {
        assert(s.subrange(0, p.len() as int) == s.take(p.len() as int));
        assert(!matches_at(s, p, 0));
        let t = s.drop_first();
        assert forall|i: int| !matches_at(t, p, i) by {
            if 0 <= i && i + p.len() <= t.len() {
                assert(t.subrange(i, i + p.len()) == s.subrange(i + 1, i + 1 + p.len()));
                assert(!matches_at(s, p, i + 1));
            }
        }
        lemma_replace_no_match(t, p, r);
        assert(seq![s[0]] + t == s);
    }
}

/// In `{`-free text around one placeholder `q`, a pattern `p` starting with
/// `{` that differs from `q` at some shared position occurs nowhere.
proof fn lemma_other_placeholder_absent(x: Seq<char>, q: Seq<char>, y: Seq<char>, p: Seq<char>, k: int)
    requires
        forall|i: int| 0 <= i < x.len() ==> x[i] != '{',
        forall|i: int| 0 <= i < y.len() ==> y[i] != '{',
        q.len() > 0,
        forall|i: int| 1 <= i < q.len() ==> q[i] != '{',
        p.len() > 0,
        p[0] == '{',
        0 <= k < p.len(),
        k < q.len(),
        p[k] != q[k],
    ensures
        forall|i: int| !matches_at(x + q + y, p, i),
{
    let w = x + q + y;
    assert forall|i: int| !matches_at(w, p, i) by {
        if matches_at(w, p, i) {
            assert(w.subrange(i, i + p.len())[0] == w[i]);
            assert(w[i] == '{');
            if i < x.len() {
                assert(w[i] == x[i]);
            } else if i > x.len() && i < x.len() + q.len() {
                assert(w[i] == q[i - x.len()]);
            } else if i >= x.len() + q.len() {
                assert(w[i] == y[i - x.len() - q.len()]);
            } else {
                assert(w.subrange(i, i + p.len())[k] == w[i + k]);
                assert(w[i + k] == q[k]);
            }
        }
    }
}

/// `{`-free text around one placeholder has no padded placeholder of a key
/// whose needle differs from the placeholder at a shared position.
proof fn lemma_pad_absent(x: Seq<char>, q: Seq<char>, y: Seq<char>, key: Seq<char>, v: Option<u16>, k: int)
    requires
        forall|i: int| 0 <= i < x.len() ==> x[i] != '{',
        forall|i: int| 0 <= i < y.len() ==> y[i] != '{',
        q.len() > 0,
        forall|i: int| 1 <= i < q.len() ==> q[i] != '{',
        0 <= k < padded_needle(key).len(),
        k < q.len(),
        padded_needle(key)[k] != q[k],
    ensures
        pad_pass(x + q + y, key, v) == x + q + y,
        pad_fits(x + q + y, key, v),
{
    lemma_other_placeholder_absent(x, q, y, padded_needle(key), k);
    lemma_find(x + q + y, padded_needle(key));
}

/// The rest of the rendering leaves `{`-free text as it is.
proof fn lemma_rest_plain(f: Seq<char>, m: MediaView, w: Seq<char>)
    requires
        after_title_year(f, m) == w,
        forall|i: int| 0 <= i < w.len() ==> w[i] != '{',
    ensures
        render(f, m) == clean_spaces_spec(w),
        render_fits(f, m),
{
    reveal_strlit("{ext}");
    lemma_pad_without_brace(w, "season"@, m.season);
    assert(plain_needle("season"@)[0] == '{');
    lemma_replace_without_brace(w, plain_needle("season"@), opt_decimal(m.season));
    assert(after_season(f, m) == w);
    lemma_pad_without_brace(w, "episode"@, m.episode);
    assert(plain_needle("episode"@)[0] == '{');
    lemma_replace_without_brace(w, plain_needle("episode"@), opt_decimal(m.episode));
    lemma_replace_without_brace(w, "{ext}"@, m.ext);
}

proof fn lemma_concat_plain(x: Seq<char>, t: Seq<char>, y: Seq<char>)
    requires
        forall|i: int| 0 <= i < x.len() ==> x[i] != '{',
        forall|i: int| 0 <= i < t.len() ==> t[i] != '{',
        forall|i: int| 0 <= i < y.len() ==> y[i] != '{',
    ensures
        forall|i: int| 0 <= i < (x + t + y).len() ==> (x + t + y)[i] != '{',
{
    let w = x + t + y;
    assert forall|i: int| 0 <= i < w.len() implies w[i] != '{' by {
        if i < x.len() {
            assert(w[i] == x[i]);
        } else if i < x.len() + t.len() {
            assert(w[i] == t[i - x.len()]);
        } else {
            assert(w[i] == y[i - x.len() - t.len()]);
        }
    }
}

proof fn lemma_decimal_plain(v: Option<u16>)
    ensures
        forall|i: int| 0 <= i < opt_decimal(v).len() ==> opt_decimal(v)[i] != '{',
{
    match v {
        Some(n) => {
            crate::text::lemma_decimal_is_digits(n as nat);
        },
        None => {},
    }
}

/// A template made of `{`-free text around one `{year}` renders to that
/// text around the year's digits (nothing when there is no year), whitespace
/// cleaned.
pub proof fn lemma_year_placeholder(x: Seq<char>, y: Seq<char>, m: MediaView)
    requires
        forall|i: int| 0 <= i < x.len() ==> x[i] != '{',
        forall|i: int| 0 <= i < y.len() ==> y[i] != '{',
    ensures
        render(x + "{year}"@ + y, m) == clean_spaces_spec(x + opt_decimal(m.year) + y),
        render_fits(x + "{year}"@ + y, m),
{
    reveal_strlit("{title}");
    reveal_strlit("{year}");
    let q = "{year}"@;
    let f = x + q + y;
    lemma_other_placeholder_absent(x, q, y, "{title}"@, 1);
    lemma_replace_no_match(f, "{title}"@, title_text(m));
    assert(f == x + (q + y));
    lemma_replace_after_plain_prefix(x, q + y, q, opt_decimal(m.year));
    assert((q + y).take(6) == q);
    assert((q + y).skip(6) == y);
    lemma_replace_without_brace(y, q, opt_decimal(m.year));
    assert(replace_all(q + y, q, opt_decimal(m.year)) == opt_decimal(m.year) + replace_all(
        (q + y).skip(6),
        q,
        opt_decimal(m.year),
    ));
    assert(replace_all(f, q, opt_decimal(m.year)) == x + (opt_decimal(m.year) + y));
    assert(x + (opt_decimal(m.year) + y) == x + opt_decimal(m.year) + y);
    assert(after_title_year(f, m) == x + opt_decimal(m.year) + y);
    lemma_decimal_plain(m.year);
    lemma_concat_plain(x, opt_decimal(m.year), y);
    lemma_rest_plain(f, m, x + opt_decimal(m.year) + y);
}

/// A template made of `{`-free text around one `{ext}` renders to that text
/// around the extension, whitespace cleaned, provided the extension holds
/// no `{`.
pub proof fn lemma_ext_placeholder(x: Seq<char>, y: Seq<char>, m: MediaView)
    requires
        forall|i: int| 0 <= i < x.len() ==> x[i] != '{',
        forall|i: int| 0 <= i < y.len() ==> y[i] != '{',
        forall|i: int| 0 <= i < m.ext.len() ==> m.ext[i] != '{',
    ensures
        render(x + "{ext}"@ + y, m) == clean_spaces_spec(x + m.ext + y),
        render_fits(x + "{ext}"@ + y, m),
{
    reveal_strlit("{title}");
    reveal_strlit("{year}");
    reveal_strlit("{ext}");
    reveal_strlit("season");
    reveal_strlit("episode");
    let q = "{ext}"@;
    let f = x + q + y;
    lemma_other_placeholder_absent(x, q, y, "{title}"@, 1);
    lemma_replace_no_match(f, "{title}"@, title_text(m));
    lemma_other_placeholder_absent(x, q, y, "{year}"@, 1);
    lemma_replace_no_match(f, "{year}"@, opt_decimal(m.year));
    assert(after_title_year(f, m) == f);
    lemma_pad_absent(x, q, y, "season"@, m.season, 1);
    lemma_other_placeholder_absent(x, q, y, plain_needle("season"@), 1);
    lemma_replace_no_match(f, plain_needle("season"@), opt_decimal(m.season));
    assert(after_season(f, m) == f);
    assert(padded_needle("episode"@)[2] == 'p');
    lemma_pad_absent(x, q, y, "episode"@, m.episode, 2);
    assert(plain_needle("episode"@)[2] == 'p');
    lemma_other_placeholder_absent(x, q, y, plain_needle("episode"@), 2);
    lemma_replace_no_match(f, plain_needle("episode"@), opt_decimal(m.episode));
    assert(f == x + (q + y));
    lemma_replace_after_plain_prefix(x, q + y, q, m.ext);
    assert((q + y).take(5) == q);
    assert((q + y).skip(5) == y);
    lemma_replace_without_brace(y, q, m.ext);
    assert(replace_padded_spec(after_season(f, m), "episode"@, m.episode) == f);
    assert(replace_all(q + y, q, m.ext) == m.ext + replace_all((q + y).skip(5), q, m.ext));
    assert(replace_all(f, q, m.ext) == x + (m.ext + y));
    assert(x + (m.ext + y) == x + m.ext + y);
}


/// The width written in a padded placeholder whose text is `w`: `w` read
/// as a `usize`, 0 when it does not read as one.
pub open spec fn width_text(w: Seq<char>) -> nat {
    match parse_usize_spec(w) {
        Some(n) => n as nat,
        None => 0,
    }
}

/// One padded placeholder `{key:w}` in `{`-free text is replaced by the
/// value padded to the width written in `w`.
proof fn lemma_pad_pass_single(
    x: Seq<char>,
    key: Seq<char>,
    w: Seq<char>,
    y: Seq<char>,
    v: Option<u16>,
)
    requires
        forall|i: int| 0 <= i < x.len() ==> x[i] != '{',
        forall|i: int| 0 <= i < y.len() ==> y[i] != '{',
        forall|i: int| 0 <= i < w.len() ==> w[i] != '{' && w[i] != '}',
        forall|i: int| 0 <= i < key.len() ==> key[i] != '{' && key[i] != '}',
    ensures
        pad_pass(x + padded_needle(key) + w + seq!['}'] + y, key, v) == x + padded_value(
            width_text(w),
            v,
        ) + y,
        pad_fits(x + padded_needle(key) + w + seq!['}'] + y, key, v) == (v is None || width_text(w)
            <= u16::MAX),
{
    let n = padded_needle(key);
    let tok = n + w + seq!['}'];
    let t = x + tok + y;
    assert(t == x + n + w + seq!['}'] + y);
    assert(n[0] == '{');
    assert forall|i: int| 1 <= i < n.len() implies n[i] != '{' && n[i] != '}' by {
        if i < n.len() - 1 {
            assert(n[i] == key[i - 1]);
        }
    }
    // the needle first occurs right after `x`
    lemma_find(t, n);
    assert(t.subrange(x.len() as int, x.len() + n.len() as int) == n);
    assert(matches_at(t, n, x.len() as int));
    assert forall|i: int| 0 <= i < x.len() implies !matches_at(t, n, i) by {
        assert(t[i] == x[i]);
        assert(t.subrange(i, i + n.len())[0] == t[i]);
    }
    assert(find(t, n) == Some(x.len() as int));
    // the first `}` after it closes the placeholder
    let u = t.skip(x.len() as int);
    assert(u == tok + y);
    let j: int = (n.len() + w.len()) as int;
    lemma_find(u, seq!['}']);
    assert(u[j] == '}');
    assert(u.subrange(j, j + 1) =~= seq!['}']);
    assert forall|i: int| 0 <= i < j implies !matches_at(u, seq!['}'], i) by {
        assert(u.subrange(i, i + 1)[0] == u[i]);
        if i < n.len() {
            assert(u[i] == n[i]);
            if i > 0 {
                assert(n[i] != '}');
            }
        } else {
            assert(u[i] == w[i - n.len()]);
        }
    }
    assert(matches_at(u, seq!['}'], j));
    match find(u, seq!['}']) {
        Some(k) => {
            if k < j {
                assert(!matches_at(u, seq!['}'], k));
            }
            if k > j {
                assert(!matches_at(u, seq!['}'], j));
            }
        },
        None => {
            assert(!matches_at(u, seq!['}'], j));
        },
    }
    assert(find(u, seq!['}']) == Some(j));
    assert(t.subrange(x.len() as int, x.len() + j + 1) == tok);
    assert(t.take(x.len() as int) == x);
    assert(t.skip(x.len() + j + 1) == y);
    // its width is the text between `:` and `}`
    assert(tok.take(n.len() as int) == n);
    assert(tok.skip(n.len() as int) == w + seq!['}']);
    let r = w + seq!['}'];
    if r.len() >= n.len() {
        assert(r.take(n.len() as int)[0] == r[0]);
        if w.len() > 0 {
            assert(r[0] == w[0]);
        } else {
            assert(r[0] == '}');
        }
    }
    assert(trim_start_matches(r, n) == r);
    assert(trim_start_matches(tok, n) == r);
    assert(r.drop_last() == w);
    if w.len() > 0 {
        assert(w.last() != '}');
    }
    assert(trim_end_matches(w, '}') == w);
    assert(trim_end_matches(r, '}') == w);
    assert(padded_width(tok, key) == width_text(w));
    // nothing after it
    lemma_pad_without_brace(y, key, v);
}

/// A template made of `{`-free text around one `{season:w}` (with `w`
/// free of braces) renders to that text around the season padded with
/// zeros to the width written in `w` (just the season for width 0 or a
/// width that does not read; nothing without a season), whitespace
/// cleaned; rendering it fits exactly when there is no season or the width
/// is at most `u16::MAX`.
pub proof fn lemma_padded_season_placeholder(x: Seq<char>, w: Seq<char>, y: Seq<char>, m: MediaView)
    requires
        forall|i: int| 0 <= i < x.len() ==> x[i] != '{',
        forall|i: int| 0 <= i < y.len() ==> y[i] != '{',
        forall|i: int| 0 <= i < w.len() ==> w[i] != '{' && w[i] != '}',
    ensures
        render_fits(x + "{season:"@ + w + "}"@ + y, m) == (m.season is None || width_text(w)
            <= u16::MAX),
        render(x + "{season:"@ + w + "}"@ + y, m) == clean_spaces_spec(
            x + padded_value(width_text(w), m.season) + y,
        ),
{
    reveal_strlit("{title}");
    reveal_strlit("{year}");
    reveal_strlit("{ext}");
    reveal_strlit("{season:");
    reveal_strlit("}");
    reveal_strlit("season");
    reveal_strlit("episode");
    let key = "season"@;
    assert(padded_needle(key) == "{season:"@);
    assert("}"@ == seq!['}']);
    let q = "{season:"@ + w + "}"@;
    let f = x + q + y;
    assert(f == x + "{season:"@ + w + "}"@ + y);
    assert forall|i: int| 1 <= i < q.len() implies q[i] != '{' by {
        if i < 8 {
            assert(q[i] == "{season:"@[i]);
        } else if i < 8 + w.len() {
            assert(q[i] == w[i - 8]);
        } else {
            assert(q[i] == '}');
        }
    }
    assert(q[1] == 's');
    lemma_other_placeholder_absent(x, q, y, "{title}"@, 1);
    lemma_replace_no_match(f, "{title}"@, title_text(m));
    lemma_other_placeholder_absent(x, q, y, "{year}"@, 1);
    lemma_replace_no_match(f, "{year}"@, opt_decimal(m.year));
    assert(after_title_year(f, m) == f);
    lemma_pad_pass_single(x, key, w, y, m.season);
    let pv = padded_value(width_text(w), m.season);
    let g = x + pv + y;
    assert forall|i: int| 0 <= i < pv.len() implies pv[i] != '{' by {
        match m.season {
            Some(n) => {
                crate::text::lemma_decimal_is_digits(n as nat);
                let d = decimal(n as nat);
                assert(is_digit(d[0]));
                if width_text(w) > 0 && d.len() < width_text(w) {
                    let z = Seq::new((width_text(w) - d.len()) as nat, |k: int| '0');
                    assert(pv == z + d);
                    if i < z.len() {
                        assert(pv[i] == '0');
                    } else {
                        assert(pv[i] == d[i - z.len()]);
                        assert(is_digit(d[i - z.len()]));
                    }
                } else {
                    assert(pv == d);
                    assert(is_digit(d[i]));
                }
            },
            None => {},
        }
    }
    lemma_concat_plain(x, pv, y);
    assert(plain_needle(key)[0] == '{');
    lemma_replace_without_brace(g, plain_needle(key), opt_decimal(m.season));
    assert(after_season(f, m) == g);
    lemma_pad_without_brace(g, "episode"@, m.episode);
    assert(plain_needle("episode"@)[0] == '{');
    lemma_replace_without_brace(g, plain_needle("episode"@), opt_decimal(m.episode));
    lemma_replace_without_brace(g, "{ext}"@, m.ext);
    lemma_pad_without_brace(g, "episode"@, m.episode);
}

} // verus!
