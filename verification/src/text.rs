//! Character-level text operations shared by the parser, the template
//! renderer and the command line: whitespace handling, searching and
//! replacing, decimal numbers.
use vstd::prelude::*;
use vstd::std_specs::iter::IteratorSpec;

verus! {

// ---------------------------------------------------------------------------
// Strings and character vectors
// ---------------------------------------------------------------------------

/// Appends one character to a `String` (std's `String::push`): the view grows
/// by exactly that character.
#[verifier::external_body]
pub(crate) fn push_char(s: &mut String, c: char)
    ensures
        final(s)@ == old(s)@.push(c),
{
    s.push(c)
}

/// The characters of a string slice, in order.
pub fn chars_of(s: &str) -> (v: Vec<char>)
    ensures
        v@ == s@,
{
    let mut v: Vec<char> = Vec::new();
    for c in it: s.chars()
        invariant
            v@ == it.seq().take(it.index() as int),
            it.seq() == s@,
    {
        v.push(c);
    }
    v
}

/// A `String` holding exactly the given characters.
pub fn string_of(v: &Vec<char>) -> (s: String)
    ensures
        s@ == v@,
{
    let mut s = String::new();
    let mut i: usize = 0;
    while i < v.len()
        invariant
            i <= v.len(),
            s@ == v@.take(i as int),
        decreases v.len() - i,
    {
        push_char(&mut s, v[i]);
        i = i + 1;
        assert(v@.take(i as int) == v@.take((i - 1) as int).push(v@[i - 1]));
    }
    assert(v@.take(v.len() as int) == v@);
    s
}

/// Character-wise equality of two character vectors.
pub fn chars_eq(a: &Vec<char>, b: &Vec<char>) -> (r: bool)
    ensures
        r == (a@ == b@),
{
    if a.len() != b.len() {
        return false;
    }
    let mut i: usize = 0;
    while i < a.len()
        invariant
            a.len() == b.len(),
            i <= a.len(),
            forall|k: int| 0 <= k < i ==> a@[k] == b@[k],
        decreases a.len() - i,
    {
        if a[i] != b[i] {
            return false;
        }
        i = i + 1;
    }
    assert(a@ =~= b@);
    true
}

/// Whether `s` and `t` hold the same characters.
pub fn str_eq(s: &str, t: &str) -> (r: bool)
    ensures
        r == (s@ == t@),
{
    let a = chars_of(s);
    let b = chars_of(t);
    chars_eq(&a, &b)
}

// ---------------------------------------------------------------------------
// Character classes
// ---------------------------------------------------------------------------

/// Unicode `White_Space`, the property behind `char::is_whitespace`,
/// `str::split_whitespace` and `str::trim`.
pub open spec fn is_ws(c: char) -> bool {
    let u = c as u32;
    ||| 0x09 <= u <= 0x0d
    ||| u == 0x20
    ||| u == 0x85
    ||| u == 0xa0
    ||| u == 0x1680
    ||| 0x2000 <= u <= 0x200a
    ||| u == 0x2028
    ||| u == 0x2029
    ||| u == 0x202f
    ||| u == 0x205f
    ||| u == 0x3000
}

pub fn is_whitespace(c: char) -> (r: bool)
    ensures
        r == is_ws(c),
{
    let u = c as u32;
    (0x09 <= u && u <= 0x0d) || u == 0x20 || u == 0x85 || u == 0xa0 || u == 0x1680 || (0x2000
        <= u && u <= 0x200a) || u == 0x2028 || u == 0x2029 || u == 0x202f || u == 0x205f || u
        == 0x3000
}

pub open spec fn is_digit(c: char) -> bool {
    '0' <= c <= '9'
}

pub open spec fn is_alpha(c: char) -> bool {
    ('a' <= c <= 'z') || ('A' <= c <= 'Z')
}

// ---------------------------------------------------------------------------
// Words: splitting on whitespace and joining with single spaces
// ---------------------------------------------------------------------------

/// The words of `s`: its maximal runs of non-whitespace characters, in order
/// (what `str::split_whitespace` yields).
pub open spec fn words(s: Seq<char>) -> Seq<Seq<char>>
    decreases s.len(),
{
    if s.len() == 0 {
        seq![]
    } else {
        let w = words(s.drop_last());
        let c = s.last();
        if is_ws(c) {
            w
        } else if s.len() >= 2 && !is_ws(s[s.len() - 2]) {
            w.update(w.len() - 1, w.last().push(c))
        } else {
            w.push(seq![c])
        }
    }
}

/// The words joined with one space between neighbours.
pub open spec fn join_words(ws: Seq<Seq<char>>) -> Seq<char>
    decreases ws.len(),
{
    if ws.len() == 0 {
        seq![]
    } else if ws.len() == 1 {
        ws[0]
    } else {
        join_words(ws.drop_last()) + seq![' '] + ws.last()
    }
}

/// `s` with every run of whitespace turned into one space and no whitespace
/// at either end (`split_whitespace` followed by `join(" ")`).
pub open spec fn collapse_ws(s: Seq<char>) -> Seq<char> {
    join_words(words(s))
}

/// Every word is non-empty and free of whitespace; a string that ends in a
/// non-whitespace character has at least one word.
pub proof fn lemma_words_wf(s: Seq<char>)
    ensures
        forall|i: int| 0 <= i < words(s).len() ==> #[trigger] words(s)[i].len() > 0,
        forall|i: int, j: int|
            0 <= i < words(s).len() && 0 <= j < words(s)[i].len() ==> !is_ws(
                #[trigger] words(s)[i][j],
            ),
        s.len() > 0 && !is_ws(s.last()) ==> words(s).len() > 0,
    decreases s.len(),
{
    if s.len() > 0 {
        lemma_words_wf(s.drop_last());
        let w = words(s.drop_last());
        let c = s.last();
        if !is_ws(c) && s.len() >= 2 && !is_ws(s[s.len() - 2]) {
            assert(s.drop_last().last() == s[s.len() - 2]);
            let nw = w.update(w.len() - 1, w.last().push(c));
            assert(words(s) == nw);
            assert forall|i: int, j: int|
                0 <= i < nw.len() && 0 <= j < nw[i].len() implies !is_ws(#[trigger] nw[i][j]) by {
                if i == w.len() - 1 {
                    if j < w.last().len() {
                        assert(nw[i][j] == w[i][j]);
                    }
                } else {
                    assert(nw[i] == w[i]);
                }
            }
        } else if !is_ws(c) {
            let nw = w.push(seq![c]);
            assert(words(s) == nw);
            assert forall|i: int, j: int|
                0 <= i < nw.len() && 0 <= j < nw[i].len() implies !is_ws(#[trigger] nw[i][j]) by {
                if i < w.len() {
                    assert(nw[i] == w[i]);
                }
            }
        }
    }
}

/// Joining non-empty words gives a non-empty text exactly when there is a word.
pub proof fn lemma_join_len(ws: Seq<Seq<char>>)
    requires
        forall|i: int| 0 <= i < ws.len() ==> #[trigger] ws[i].len() > 0,
    ensures
        (join_words(ws).len() == 0) == (ws.len() == 0),
    decreases ws.len(),
{
    if ws.len() > 1 {
        lemma_join_len(ws.drop_last());
    }
}

/// Extending the last word by one character extends the joined text by it.
pub proof fn lemma_join_extend_last(ws: Seq<Seq<char>>, c: char)
    requires
        ws.len() > 0,
    ensures
        join_words(ws.update(ws.len() - 1, ws.last().push(c))) == join_words(ws).push(c),
{
    let nw = ws.update(ws.len() - 1, ws.last().push(c));
    if ws.len() > 1 {
        assert(nw.drop_last() == ws.drop_last());
    }
}

/// `collapse_ws`, computed on characters.
pub fn collapse_whitespace(s: &Vec<char>) -> (r: Vec<char>)
    ensures
        r@ == collapse_ws(s@),
{
    let mut out: Vec<char> = Vec::new();
    let mut i: usize = 0;
    while i < s.len()
        invariant
            i <= s.len(),
            out@ == join_words(words(s@.take(i as int))),
        decreases s.len() - i,
    {
        let c = s[i];
        let ghost pre = s@.take(i as int);
        let ghost cur = s@.take(i + 1);
        proof {
            assert(cur.drop_last() == pre);
            assert(cur.last() == c);
            lemma_words_wf(pre);
            lemma_join_len(words(pre));
        }
        if is_whitespace(c) {
        } else if i >= 1 && !is_whitespace(s[i - 1]) {
            proof {
                assert(cur[cur.len() - 2] == s@[i - 1]);
                assert(pre.last() == s@[i - 1]);
                lemma_join_extend_last(words(pre), c);
            }
            out.push(c);
        } else {
            if out.len() > 0 {
                out.push(' ');
            }
            out.push(c);
            proof {
                let w = words(pre);
                if i >= 1 {
                    assert(cur[cur.len() - 2] == s@[i - 1]);
                }
                assert(words(cur) == w.push(seq![c]));
                if w.len() > 0 {
                    assert(w.push(seq![c]).drop_last() == w);
                    assert(out@ == join_words(w) + seq![' '] + seq![c]);
                } else {
                    assert(out@ == seq![c]);
                }
            }
        }
        i = i + 1;
    }
    assert(s@.take(s.len() as int) == s@);
    out
}


// ---------------------------------------------------------------------------
// Slices, trimming
// ---------------------------------------------------------------------------

/// A copy of `v[a..b]`.
pub fn slice_chars(v: &Vec<char>, a: usize, b: usize) -> (r: Vec<char>)
    requires
        a <= b <= v.len(),
    ensures
        r@ == v@.subrange(a as int, b as int),
{
    let mut r: Vec<char> = Vec::new();
    let mut i: usize = a;
    while i < b
        invariant
            a <= i <= b <= v.len(),
            r@ == v@.subrange(a as int, i as int),
        decreases b - i,
    {
        r.push(v[i]);
        i = i + 1;
        assert(v@.subrange(a as int, i as int) == v@.subrange(a as int, i - 1).push(v@[i - 1]));
    }
    r
}

/// Appends `w` to `out`.
pub fn append_chars(out: &mut Vec<char>, w: &Vec<char>)
    ensures
        final(out)@ == old(out)@ + w@,
{
    let mut i: usize = 0;
    while i < w.len()
        invariant
            i <= w.len(),
            out@ == old(out)@ + w@.take(i as int),
        decreases w.len() - i,
    {
        out.push(w[i]);
        i = i + 1;
        assert(w@.take(i as int) == w@.take(i - 1).push(w@[i - 1]));
    }
    assert(w@.take(w.len() as int) == w@);
}

/// `s` without its leading whitespace (`str::trim_start`).
pub open spec fn trim_start_ws(s: Seq<char>) -> Seq<char>
    decreases s.len(),
{
    if s.len() > 0 && is_ws(s[0]) {
        trim_start_ws(s.drop_first())
    } else {
        s
    }
}

/// `s` without its trailing whitespace (`str::trim_end`).
pub open spec fn trim_end_ws(s: Seq<char>) -> Seq<char>
    decreases s.len(),
{
    if s.len() > 0 && is_ws(s.last()) {
        trim_end_ws(s.drop_last())
    } else {
        s
    }
}

/// `s` without whitespace at either end (`str::trim`).
pub open spec fn trim_ws(s: Seq<char>) -> Seq<char> {
    trim_end_ws(trim_start_ws(s))
}

pub proof fn lemma_trim_start_skip(s: Seq<char>, a: int)
    requires
        0 <= a <= s.len(),
        forall|k: int| 0 <= k < a ==> is_ws(#[trigger] s[k]),
        a == s.len() || !is_ws(s[a]),
    ensures
        trim_start_ws(s) == s.skip(a),
    decreases a,
{
    if a > 0 {
        assert(s.drop_first().skip(a - 1) == s.skip(a));
        assert forall|k: int| 0 <= k < a - 1 implies is_ws(#[trigger] s.drop_first()[k]) by {
            assert(s.drop_first()[k] == s[k + 1]);
        }
        lemma_trim_start_skip(s.drop_first(), a - 1);
    } else {
        assert(s.skip(0) == s);
    }
}

pub proof fn lemma_trim_end_take(s: Seq<char>, b: int)
    requires
        0 <= b <= s.len(),
        forall|k: int| b <= k < s.len() ==> is_ws(#[trigger] s[k]),
        b == 0 || !is_ws(s[b - 1]),
    ensures
        trim_end_ws(s) == s.take(b),
    decreases s.len() - b,
{
    if b < s.len() {
        assert(s.drop_last().take(b) == s.take(b));
        lemma_trim_end_take(s.drop_last(), b);
    } else {
        assert(s.take(b) == s);
    }
}

/// `trim_start_ws`, computed on characters.
pub fn trim_start_whitespace(s: &Vec<char>) -> (r: Vec<char>)
    ensures
        r@ == trim_start_ws(s@),
{
    let mut a: usize = 0;
    while a < s.len() && is_whitespace(s[a])
        invariant
            a <= s.len(),
            forall|k: int| 0 <= k < a ==> is_ws(#[trigger] s@[k]),
        decreases s.len() - a,
    {
        a = a + 1;
    }
    proof {
        lemma_trim_start_skip(s@, a as int);
    }
    slice_chars(s, a, s.len())
}

/// `trim_ws`, computed on characters.
pub fn trim_whitespace(s: &Vec<char>) -> (r: Vec<char>)
    ensures
        r@ == trim_ws(s@),
{
    let mut a: usize = 0;
    while a < s.len() && is_whitespace(s[a])
        invariant
            a <= s.len(),
            forall|k: int| 0 <= k < a ==> is_ws(#[trigger] s@[k]),
        decreases s.len() - a,
    {
        a = a + 1;
    }
    proof {
        lemma_trim_start_skip(s@, a as int);
    }
    let mut b: usize = s.len();
    while b > a && is_whitespace(s[b - 1])
        invariant
            a <= b <= s.len(),
            forall|k: int| b <= k < s.len() ==> is_ws(#[trigger] s@[k]),
        decreases b,
    {
        b = b - 1;
    }
    let ghost t = s@.skip(a as int);
    proof {
        assert forall|k: int| b - a <= k < t.len() implies is_ws(#[trigger] t[k]) by {
            assert(t[k] == s@[k + a]);
        }
        if b > a {
            assert(t[b - a - 1] == s@[b - 1]);
        }
        lemma_trim_end_take(t, b - a);
        assert(t.take(b - a) == s@.subrange(a as int, b as int));
    }
    slice_chars(s, a, b)
}

// ---------------------------------------------------------------------------
// Searching and replacing
// ---------------------------------------------------------------------------

/// `p` occurs in `s` starting at index `i`.
pub open spec fn matches_at(s: Seq<char>, p: Seq<char>, i: int) -> bool {
    0 <= i && i + p.len() <= s.len() && s.subrange(i, i + p.len()) == p
}

/// Index of the first occurrence of `p` in `s` (`str::find`).
pub open spec fn find(s: Seq<char>, p: Seq<char>) -> Option<int>
    decreases s.len(),
{
    if s.len() < p.len() {
        None
    } else if s.take(p.len() as int) == p {
        Some(0)
    } else if s.len() == 0 {
        None
    } else {
        match find(s.drop_first(), p) {
            Some(k) => Some(k + 1),
            None => None,
        }
    }
}

/// `find` gives the least index at which `p` occurs, and `None` when it
/// occurs nowhere.
pub proof fn lemma_find(s: Seq<char>, p: Seq<char>)
    ensures
        match find(s, p) {
            Some(i) => matches_at(s, p, i) && forall|j: int| 0 <= j < i ==> !matches_at(s, p, j),
            None => forall|j: int| !matches_at(s, p, j),
        },
    decreases s.len(),
{
    if s.len() < p.len() {
    } else if s.take(p.len() as int) == p {
        assert(s.subrange(0, p.len() as int) == s.take(p.len() as int));
    } else if s.len() == 0 {
        assert(s.take(p.len() as int) =~= p);
    } else {
        lemma_find(s.drop_first(), p);
        let t = s.drop_first();
        assert forall|j: int| 0 <= j && j + p.len() <= t.len() implies (matches_at(t, p, j)
            == matches_at(s, p, j + 1)) by {
            assert(t.subrange(j, j + p.len()) == s.subrange(j + 1, j + 1 + p.len()));
        }
        assert(!matches_at(s, p, 0)) by {
            assert(s.subrange(0, p.len() as int) == s.take(p.len() as int));
        }
        match find(t, p) {
            Some(k) => {
                assert forall|j: int| 0 <= j < k + 1 implies !matches_at(s, p, j) by {
                    if j > 0 {
                        assert(!matches_at(t, p, j - 1));
                    }
                }
            },
            None => {
                assert forall|j: int| !matches_at(s, p, j) by {
                    if j > 0 && j + p.len() <= s.len() {
                        assert(!matches_at(t, p, j - 1));
                    }
                }
            },
        }
    }
}

/// Whether `p` occurs in `s` at index `i`, computed.
pub fn occurs_at(s: &Vec<char>, p: &Vec<char>, i: usize) -> (r: bool)
    ensures
        r == matches_at(s@, p@, i as int),
{
    if i > s.len() || p.len() > s.len() - i {
        return false;
    }
    let mut k: usize = 0;
    while k < p.len()
        invariant
            i + p.len() <= s.len(),
            k <= p.len(),
            forall|m: int| 0 <= m < k ==> s@[i + m] == p@[m],
        decreases p.len() - k,
    {
        if s[i + k] != p[k] {
            assert(s@.subrange(i as int, i + p.len())[k as int] == s@[i + k]);
            return false;
        }
        k = k + 1;
    }
    assert(s@.subrange(i as int, i + p.len()) =~= p@);
    true
}

/// The first index at or after `from` where `p` occurs in `s`.
pub fn find_from(s: &Vec<char>, p: &Vec<char>, from: usize) -> (r: Option<usize>)
    ensures
        match r {
            Some(i) => from <= i && matches_at(s@, p@, i as int) && forall|j: int|
                from <= j < i ==> !matches_at(s@, p@, j),
            None => forall|j: int| from <= j ==> !matches_at(s@, p@, j),
        },
{
    let mut i: usize = from;
    while i < s.len()
        invariant
            from <= i,
            forall|j: int| from <= j < i ==> !matches_at(s@, p@, j),
        decreases s.len() - i,
    {
        if occurs_at(s, p, i) {
            return Some(i);
        }
        i = i + 1;
    }
    if occurs_at(s, p, i) {
        return Some(i);
    }
    assert forall|j: int| from <= j implies !matches_at(s@, p@, j) by {
        if j > i {
            assert(j + p@.len() > s@.len());
        }
    }
    None
}

/// The first occurrence of `p` in `s[from..]`, as `find` on that suffix
/// describes it.
pub fn find_in_suffix(s: &Vec<char>, p: &Vec<char>, from: usize) -> (r: Option<usize>)
    requires
        from <= s.len(),
    ensures
        match find(s@.skip(from as int), p@) {
            Some(k) => r matches Some(i) && i == from + k && 0 <= k && from + k + p@.len()
                <= s@.len(),
            None => r is None,
        },
{
    let r = find_from(s, p, from);
    let ghost t = s@.skip(from as int);
    proof {
        lemma_find(t, p@);
        assert forall|j: int| 0 <= j implies matches_at(t, p@, j) == matches_at(s@, p@, j + from) by {
            if j + p@.len() <= t.len() {
                assert(t.subrange(j, j + p@.len()) == s@.subrange(j + from, j + from + p@.len()));
            }
        }
        match find(t, p@) {
            Some(k) => {
                match r {
                    Some(i) => {
                        if i < k + from {
                            assert(!matches_at(t, p@, i - from));
                        } else if i > k + from {
                            assert(matches_at(s@, p@, k + from));
                        }
                    },
                    None => {
                        assert(matches_at(s@, p@, k + from));
                    },
                }
            },
            None => {
                match r {
                    Some(i) => {
                        assert(!matches_at(t, p@, i - from));
                    },
                    None => {},
                }
            },
        }
    }
    r
}

/// `s` with every non-overlapping occurrence of `p`, taken from the left,
/// replaced by `r` (`str::replace`, for a non-empty pattern).
pub open spec fn replace_all(s: Seq<char>, p: Seq<char>, r: Seq<char>) -> Seq<char>
    decreases s.len(),
{
    if p.len() == 0 || s.len() < p.len() {
        s
    } else if s.take(p.len() as int) == p {
        r + replace_all(s.skip(p.len() as int), p, r)
    } else {
        seq![s[0]] + replace_all(s.drop_first(), p, r)
    }
}

/// `replace_all`, computed on characters.
pub fn replace_chars(s: &Vec<char>, p: &Vec<char>, r: &Vec<char>) -> (out: Vec<char>)
    requires
        p.len() > 0,
    ensures
        out@ == replace_all(s@, p@, r@),
{
    let mut out: Vec<char> = Vec::new();
    let mut i: usize = 0;
    assert(s@.skip(0) == s@);
    while i < s.len()
        invariant
            i <= s.len(),
            p.len() > 0,
            out@ + replace_all(s@.skip(i as int), p@, r@) == replace_all(s@, p@, r@),
        decreases s.len() - i,
    {
        let ghost t = s@.skip(i as int);
        if occurs_at(s, p, i) {
            proof {
                assert(t.take(p@.len() as int) == s@.subrange(i as int, i + p@.len()));
                assert(t.skip(p@.len() as int) == s@.skip(i + p@.len()));
                assert(out@ + (r@ + replace_all(s@.skip(i + p@.len()), p@, r@)) == (out@ + r@)
                    + replace_all(s@.skip(i + p@.len()), p@, r@));
            }
            append_chars(&mut out, r);
            i = i + p.len();
        } else {
            proof {
                assert(t.drop_first() == s@.skip(i + 1));
                if t.len() >= p@.len() {
                    assert(t.take(p@.len() as int) == s@.subrange(i as int, i + p@.len()));
                    assert(out@ + (seq![t[0]] + replace_all(t.drop_first(), p@, r@)) == out@.push(
                        s@[i as int],
                    ) + replace_all(s@.skip(i + 1), p@, r@));
                } else {
                    assert(s@.skip(i + 1).len() < p@.len());
                    assert(t == seq![s@[i as int]] + s@.skip(i + 1));
                    assert(out@ + t == out@.push(s@[i as int]) + s@.skip(i + 1));
                }
            }
            out.push(s[i]);
            i = i + 1;
        }
    }
    proof {
        assert(s@.skip(i as int).len() == 0);
        assert(out@ + s@.skip(i as int) == out@);
    }
    out
}

/// `s` with every leading copy of the non-empty `p` removed
/// (`str::trim_start_matches` with a string pattern).
pub open spec fn trim_start_matches(s: Seq<char>, p: Seq<char>) -> Seq<char>
    decreases s.len(),
{
    if p.len() > 0 && s.len() >= p.len() && s.take(p.len() as int) == p {
        trim_start_matches(s.skip(p.len() as int), p)
    } else {
        s
    }
}

/// `s` with every trailing `c` removed (`str::trim_end_matches` with a char).
pub open spec fn trim_end_matches(s: Seq<char>, c: char) -> Seq<char>
    decreases s.len(),
{
    if s.len() > 0 && s.last() == c {
        trim_end_matches(s.drop_last(), c)
    } else {
        s
    }
}

/// `trim_start_matches`, computed on characters.
pub fn trim_start_matching(s: &Vec<char>, p: &Vec<char>) -> (r: Vec<char>)
    requires
        p.len() > 0,
    ensures
        r@ == trim_start_matches(s@, p@),
{
    let mut i: usize = 0;
    assert(s@.skip(0) == s@);
    while occurs_at(s, p, i)
        invariant
            i <= s.len(),
            p.len() > 0,
            trim_start_matches(s@.skip(i as int), p@) == trim_start_matches(s@, p@),
        decreases s.len() - i,
    {
        proof {
            let t = s@.skip(i as int);
            assert(t.take(p@.len() as int) == s@.subrange(i as int, i + p@.len()));
            assert(t.skip(p@.len() as int) == s@.skip(i + p@.len()));
        }
        i = i + p.len();
    }
    proof {
        let t = s@.skip(i as int);
        if t.len() >= p@.len() {
            assert(t.take(p@.len() as int) == s@.subrange(i as int, i + p@.len()));
        }
        assert(t == s@.subrange(i as int, s@.len() as int));
    }
    slice_chars(s, i, s.len())
}

/// `trim_end_matches`, computed on characters.
pub fn trim_end_matching(s: &Vec<char>, c: char) -> (r: Vec<char>)
    ensures
        r@ == trim_end_matches(s@, c),
{
    let mut b: usize = s.len();
    assert(s@.take(b as int) == s@);
    while b > 0 && s[b - 1] == c
        invariant
            b <= s.len(),
            trim_end_matches(s@.take(b as int), c) == trim_end_matches(s@, c),
        decreases b,
    {
        assert(s@.take(b as int).drop_last() == s@.take(b - 1));
        b = b - 1;
    }
    slice_chars(s, 0, b)
}


// ---------------------------------------------------------------------------
// Decimal numbers
// ---------------------------------------------------------------------------

/// The ASCII digit for `d` (0 to 9).
pub open spec fn digit_char(d: int) -> char {
    (48 + d) as char
}

/// The value of an ASCII digit.
pub open spec fn digit_value(c: char) -> int {
    c as int - 48
}

/// The decimal representation of `n`, without leading zeros
/// (what `to_string` gives for an unsigned integer).
pub open spec fn decimal(n: nat) -> Seq<char>
    decreases n,
{
    if n < 10 {
        seq![digit_char(n as int)]
    } else {
        decimal(n / 10).push(digit_char((n % 10) as int))
    }
}

/// `d` left-padded with zeros to at least `width` characters
/// (the `{:0width$}` format of a number whose digits are `d`).
pub open spec fn pad_zeros(d: Seq<char>, width: nat) -> Seq<char> {
    if d.len() >= width {
        d
    } else {
        Seq::new((width - d.len()) as nat, |i: int| '0') + d
    }
}

/// The value of a sequence of ASCII digits.
pub open spec fn digits_value(s: Seq<char>) -> nat
    decreases s.len(),
{
    if s.len() == 0 {
        0
    } else {
        (digits_value(s.drop_last()) * 10 + digit_value(s.last())) as nat
    }
}

pub open spec fn all_digits(s: Seq<char>) -> bool {
    forall|i: int| 0 <= i < s.len() ==> is_digit(#[trigger] s[i])
}

/// The number that `str::parse` reads from `s` for an unsigned integer type
/// before the range check: an optional `+` followed by at least one ASCII
/// digit; `None` for anything else.
pub open spec fn parse_number(s: Seq<char>) -> Option<nat> {
    let d = if s.len() > 0 && s[0] == '+' {
        s.drop_first()
    } else {
        s
    };
    if d.len() > 0 && all_digits(d) {
        Some(digits_value(d))
    } else {
        None
    }
}

/// `s.parse::<usize>()`, with errors as `None`.
pub open spec fn parse_usize_spec(s: Seq<char>) -> Option<usize> {
    match parse_number(s) {
        Some(v) => if v <= usize::MAX {
            Some(v as usize)
        } else {
            None
        },
        None => None,
    }
}

/// `s.parse::<u16>()`, with errors as `None`.
pub open spec fn parse_u16_spec(s: Seq<char>) -> Option<u16> {
    match parse_number(s) {
        Some(v) => if v <= u16::MAX {
            Some(v as u16)
        } else {
            None
        },
        None => None,
    }
}

pub fn char_is_digit(c: char) -> (r: bool)
    ensures
        r == is_digit(c),
{
    '0' <= c && c <= '9'
}

fn digit_of(d: u64) -> (c: char)
    requires
        d < 10,
    ensures
        c == digit_char(d as int),
        is_digit(c),
        digit_value(c) == d,
{
    let b: u8 = 48u8 + d as u8;
    b as char
}

proof fn lemma_decimal_digits(n: nat)
    ensures
        decimal(n).len() > 0,
        all_digits(decimal(n)),
        digits_value(decimal(n)) == n,
    decreases n,
{
    if n < 10 {
        assert(digit_value(digit_char(n as int)) == n);
        let one = seq![digit_char(n as int)];
        assert(digits_value(one.drop_last()) == 0);
        assert(digits_value(one) == n);
    }
    if n >= 10 {
        lemma_decimal_digits(n / 10);
        let d = decimal(n / 10);
        let e = d.push(digit_char((n % 10) as int));
        assert(e.drop_last() == d);
        assert(digit_value(digit_char((n % 10) as int)) == n % 10);
        assert(digits_value(e) == (n / 10) * 10 + n % 10);
        assert((n / 10) * 10 + n % 10 == n) by (nonlinear_arith);
        assert(decimal(n) == e);
        assert forall|i: int| 0 <= i < e.len() implies is_digit(#[trigger] e[i]) by {
            if i < d.len() {
                assert(e[i] == d[i]);
            }
        }
    }
}

/// `decimal(n)`, computed.
pub fn decimal_chars(n: u64) -> (r: Vec<char>)
    ensures
        r@ == decimal(n as nat),
    decreases n,
{
    if n < 10 {
        let mut v: Vec<char> = Vec::new();
        v.push(digit_of(n));
        assert(v@ == seq![digit_char(n as int)]);
        v
    } else {
        let mut v = decimal_chars(n / 10);
        v.push(digit_of(n % 10));
        v
    }
}

/// `pad_zeros`, computed.
pub fn pad_with_zeros(d: &Vec<char>, width: usize) -> (r: Vec<char>)
    ensures
        r@ == pad_zeros(d@, width as nat),
{
    if d.len() >= width {
        return d.clone();
    }
    let mut r: Vec<char> = Vec::new();
    let fill = width - d.len();
    while r.len() < fill
        invariant
            r.len() <= fill,
            forall|i: int| 0 <= i < r.len() ==> r@[i] == '0',
        decreases fill - r.len(),
    {
        r.push('0');
    }
    assert(r@ == Seq::new(fill as nat, |i: int| '0'));
    append_chars(&mut r, d);
    r
}

proof fn lemma_digits_value_prefix(s: Seq<char>, k: int)
    requires
        0 <= k <= s.len(),
        all_digits(s),
    ensures
        digits_value(s.take(k)) <= digits_value(s),
    decreases s.len() - k,
{
    if k < s.len() {
        lemma_digits_value_prefix(s.drop_last(), k);
        assert(s.drop_last().take(k) == s.take(k));
        assert(is_digit(s[s.len() - 1]));
    } else {
        assert(s.take(k) == s);
    }
}

/// The number written in `s[a..b]`, when that is an optional `+` and at least
/// one ASCII digit, and it is at most `max`.
pub fn parse_bounded(s: &Vec<char>, a: usize, b: usize, max: u64) -> (r: Option<u64>)
    requires
        a <= b <= s.len(),
    ensures
        match parse_number(s@.subrange(a as int, b as int)) {
            Some(v) => if v <= max {
                r == Some(v as u64)
            } else {
                r is None
            },
            None => r is None,
        },
{
    let ghost t = s@.subrange(a as int, b as int);
    let mut start = a;
    if a < b && s[a] == '+' {
        start = a + 1;
    }
    let ghost d = s@.subrange(start as int, b as int);
    proof {
        if a < b {
            assert(t[0] == s@[a as int]);
        }
        if a < b && s@[a as int] == '+' {
            assert(d == t.drop_first());
        } else {
            assert(d == t);
        }
    }
    if start >= b {
        return None;
    }
    let mut i = start;
    while i < b
        invariant
            start <= i <= b <= s.len(),
            d == s@.subrange(start as int, b as int),
            d.len() > 0,
            parse_number(s@.subrange(a as int, b as int)) == (if all_digits(d) {
                Some(digits_value(d))
            } else {
                None
            }),
            forall|k: int| start <= k < i ==> is_digit(#[trigger] s@[k]),
        decreases b - i,
    {
        if !char_is_digit(s[i]) {
            assert(d[i - start] == s@[i as int]);
            assert(!is_digit(d[i - start]));
            return None;
        }
        i = i + 1;
    }
    assert(all_digits(d)) by {
        assert forall|k: int| 0 <= k < d.len() implies is_digit(#[trigger] d[k]) by {
            assert(d[k] == s@[k + start]);
        }
    }
    let mut v: u64 = 0;
    let mut j = start;
    while j < b
        invariant
            start <= j <= b <= s.len(),
            all_digits(d),
            d == s@.subrange(start as int, b as int),
            parse_number(s@.subrange(a as int, b as int)) == Some(digits_value(d)),
            v == digits_value(d.take(j - start)),
            v <= max,
        decreases b - j,
    {
        let c = s[j];
        assert(d[j - start] == c);
        let ghost pre = d.take(j - start + 1);
        assert(pre.drop_last() == d.take(j - start));
        assert(pre.last() == c);
        assert(is_digit(c));
        let dv = (c as u32 - 48) as u64;
        assert(dv == digit_value(c));
        assert(digits_value(pre) == v * 10 + dv);
        if dv > max || v > (max - dv) / 10 {
            proof {
                lemma_digits_value_prefix(d, j - start + 1);
                if dv <= max {
                    assert(v * 10 + dv > max) by (nonlinear_arith)
                        requires
                            v > (max - dv) / 10,
                            dv <= max,
                    ;
                }
            }
            return None;
        }
        proof {
            assert(v * 10 + dv <= max) by (nonlinear_arith)
                requires
                    v <= (max - dv) / 10,
                    dv <= max,
            ;
        }
        v = v * 10 + dv;
        j = j + 1;
    }
    assert(d.take(b - start) == d);
    Some(v)
}


/// `10` to the power `n`.
pub open spec fn pow10(n: nat) -> nat
    decreases n,
{
    if n == 0 {
        1
    } else {
        10 * pow10((n - 1) as nat)
    }
}

/// A number written with `n` digits is below `10^n`.
pub proof fn lemma_digits_value_bound(s: Seq<char>)
    requires
        all_digits(s),
    ensures
        digits_value(s) < pow10(s.len()),
    decreases s.len(),
{
    if s.len() > 0 {
        assert(all_digits(s.drop_last())) by {
            assert forall|i: int| 0 <= i < s.drop_last().len() implies is_digit(
                #[trigger] s.drop_last()[i],
            ) by {
                assert(s.drop_last()[i] == s[i]);
            }
        }
        lemma_digits_value_bound(s.drop_last());
        assert(is_digit(s[s.len() - 1]));
        let v = digits_value(s.drop_last());
        let b = pow10((s.len() - 1) as nat);
        assert(v * 10 + 9 < 10 * b) by (nonlinear_arith)
            requires
                v < b,
        ;
    }
}

/// A string of ASCII digits reads as its own value.
pub proof fn lemma_parse_digits(s: Seq<char>)
    requires
        s.len() > 0,
        all_digits(s),
    ensures
        parse_number(s) == Some(digits_value(s)),
{
    assert(is_digit(s[0]));
}


// ---------------------------------------------------------------------------
// Clean text: words separated by single spaces
// ---------------------------------------------------------------------------

/// Text whose only whitespace is single spaces between other characters:
/// no whitespace at either end, no two whitespace characters in a row.
pub open spec fn is_clean(s: Seq<char>) -> bool {
    forall|i: int|
        0 <= i < s.len() && is_ws(#[trigger] s[i]) ==> s[i] == ' ' && 0 < i < s.len() - 1
            && !is_ws(s[i + 1])
}

/// Words joined by single spaces form clean text.
pub proof fn lemma_join_clean(ws: Seq<Seq<char>>)
    requires
        forall|i: int| 0 <= i < ws.len() ==> #[trigger] ws[i].len() > 0,
        forall|i: int, j: int| 0 <= i < ws.len() && 0 <= j < ws[i].len() ==> !is_ws(#[trigger] ws[i][j]),
    ensures
        is_clean(join_words(ws)),
        ws.len() > 0 ==> join_words(ws).len() > 0 && !is_ws(join_words(ws)[0]) && !is_ws(
            join_words(ws).last(),
        ),
    decreases ws.len(),
{
    if ws.len() == 1 {
        assert(!is_ws(ws[0][0]));
        assert(!is_ws(ws[0][ws[0].len() - 1]));
    } else if ws.len() > 1 {
        let init = ws.drop_last();
        assert forall|i: int| 0 <= i < init.len() implies #[trigger] init[i].len() > 0 by {
            assert(init[i] == ws[i]);
        }
        assert forall|i: int, j: int| 0 <= i < init.len() && 0 <= j < init[i].len() implies !is_ws(
            #[trigger] init[i][j],
        ) by {
            assert(init[i] == ws[i]);
        }
        lemma_join_clean(init);
        let a = join_words(init);
        let w = ws.last();
        assert(w.len() > 0);
        assert forall|j: int| 0 <= j < w.len() implies !is_ws(#[trigger] w[j]) by {
            assert(w == ws[ws.len() - 1]);
        }
        let r = a + seq![' '] + w;
        assert(join_words(ws) == r);
        assert(!is_ws(r[0]));
        assert(r.last() == w[w.len() - 1]);
        assert forall|i: int| 0 <= i < r.len() && is_ws(#[trigger] r[i]) implies r[i] == ' ' && 0
            < i < r.len() - 1 && !is_ws(r[i + 1]) by {
            if i < a.len() {
                assert(r[i] == a[i]);
                if i + 1 < a.len() {
                    assert(r[i + 1] == a[i + 1]);
                } else {
                    assert(a[i] == a.last());
                }
            } else if i == a.len() {
                assert(r[i + 1] == w[0]);
            } else {
                assert(r[i] == w[i - a.len() - 1]);
            }
        }
    }
}

/// Collapsing whitespace gives clean text.
pub proof fn lemma_collapse_clean(s: Seq<char>)
    ensures
        is_clean(collapse_ws(s)),
{
    lemma_words_wf(s);
    lemma_join_clean(words(s));
}

/// Clean text is left alone by trimming.
pub proof fn lemma_trim_clean(s: Seq<char>)
    requires
        is_clean(s),
    ensures
        trim_ws(s) == s,
{
    if s.len() > 0 {
        if is_ws(s[0]) {
            assert(false);
        }
        if is_ws(s[s.len() - 1]) {
            assert(false);
        }
    }
    assert(trim_start_ws(s) == s);
}

/// Collapsing clean text gives it back (without a trailing space, should
/// the text end in one while otherwise clean).
proof fn lemma_collapse_of_clean_prefix(s: Seq<char>)
    requires
        forall|i: int| 0 <= i < s.len() && is_ws(#[trigger] s[i]) ==> s[i] == ' ' && 0 < i,
        forall|i: int| 0 <= i < s.len() - 1 && is_ws(#[trigger] s[i]) ==> !is_ws(s[i + 1]),
    ensures
        s.len() > 0 && is_ws(s.last()) ==> join_words(words(s)) == s.drop_last(),
        !(s.len() > 0 && is_ws(s.last())) ==> join_words(words(s)) == s,
    decreases s.len(),
{
    if s.len() > 0 {
        let p = s.drop_last();
        assert forall|i: int| 0 <= i < p.len() && is_ws(#[trigger] p[i]) implies p[i] == ' ' && 0
            < i by {
            assert(p[i] == s[i]);
        }
        assert forall|i: int| 0 <= i < p.len() - 1 && is_ws(#[trigger] p[i]) implies !is_ws(
            p[i + 1],
        ) by {
            assert(p[i] == s[i]);
            assert(p[i + 1] == s[i + 1]);
        }
        lemma_collapse_of_clean_prefix(p);
        lemma_words_wf(p);
        lemma_join_len(words(p));
        let c = s.last();
        if is_ws(c) {
            if p.len() > 0 {
                assert(p.last() == s[s.len() - 2]);
                assert(!is_ws(p.last()));
            }
        } else if s.len() >= 2 && !is_ws(s[s.len() - 2]) {
            assert(p.last() == s[s.len() - 2]);
            lemma_join_extend_last(words(p), c);
            assert(s == p.push(c));
        } else if s.len() >= 2 {
            assert(p.last() == s[s.len() - 2]);
            assert(is_ws(s[s.len() - 2]));
            let w = words(p);
            assert(s.len() - 2 > 0);
            assert(p.len() > 1);
            assert(!is_ws(p[p.len() - 2])) by {
                assert(p[p.len() - 2] == s[s.len() - 3]);
            }
            assert(p.drop_last().len() > 0);
            lemma_words_wf(p.drop_last());
            assert(p.drop_last().last() == p[p.len() - 2]);
            assert(words(p) == words(p.drop_last()));
            assert(w.len() > 0);
            assert(w.push(seq![c]).drop_last() == w);
            assert(join_words(words(s)) == p.drop_last() + seq![' '] + seq![c]);
            assert(s[s.len() - 2] == ' ');
            assert(s =~= p.drop_last() + seq![' '] + seq![c]);
        } else {
            assert(words(s) == seq![seq![c]]);
            assert(s =~= seq![c]);
        }
    }
}

/// Collapsing whitespace in clean text changes nothing.
pub proof fn lemma_collapse_clean_id(s: Seq<char>)
    requires
        is_clean(s),
    ensures
        collapse_ws(s) == s,
{
    assert forall|i: int| 0 <= i < s.len() - 1 && is_ws(#[trigger] s[i]) implies !is_ws(s[i + 1]) by {
    }
    lemma_collapse_of_clean_prefix(s);
    if s.len() > 0 && is_ws(s.last()) {
        assert(is_ws(s[s.len() - 1]));
    }
}


/// Every character of a word satisfies `pred` when every non-whitespace
/// character of the text does.
pub proof fn lemma_words_chars(s: Seq<char>, pred: spec_fn(char) -> bool)
    requires
        forall|i: int| 0 <= i < s.len() ==> is_ws(#[trigger] s[i]) || pred(s[i]),
    ensures
        forall|i: int, j: int|
            0 <= i < words(s).len() && 0 <= j < words(s)[i].len() ==> pred(#[trigger] words(s)[i][j]),
    decreases s.len(),
{
    if s.len() > 0 {
        let p = s.drop_last();
        assert forall|i: int| 0 <= i < p.len() implies is_ws(#[trigger] p[i]) || pred(p[i]) by {
            assert(p[i] == s[i]);
        }
        lemma_words_chars(p, pred);
        lemma_words_wf(p);
        let w = words(p);
        let c = s.last();
        assert(is_ws(s[s.len() - 1]) || pred(s[s.len() - 1]));
        if !is_ws(c) && s.len() >= 2 && !is_ws(s[s.len() - 2]) {
            assert(p.last() == s[s.len() - 2]);
            let nw = w.update(w.len() - 1, w.last().push(c));
            assert forall|i: int, j: int| 0 <= i < nw.len() && 0 <= j < nw[i].len() implies pred(
                #[trigger] nw[i][j],
            ) by {
                if i == w.len() - 1 {
                    if j < w.last().len() {
                        assert(nw[i][j] == w[i][j]);
                    }
                } else {
                    assert(nw[i] == w[i]);
                }
            }
        } else if !is_ws(c) {
            let nw = w.push(seq![c]);
            assert forall|i: int, j: int| 0 <= i < nw.len() && 0 <= j < nw[i].len() implies pred(
                #[trigger] nw[i][j],
            ) by {
                if i < w.len() {
                    assert(nw[i] == w[i]);
                }
            }
        }
    }
}

/// Every character of joined words is a space or a character of a word.
pub proof fn lemma_join_chars(ws: Seq<Seq<char>>, pred: spec_fn(char) -> bool)
    requires
        forall|i: int, j: int| 0 <= i < ws.len() && 0 <= j < ws[i].len() ==> pred(#[trigger] ws[i][j]),
    ensures
        forall|k: int|
            0 <= k < join_words(ws).len() ==> #[trigger] join_words(ws)[k] == ' ' || pred(
                join_words(ws)[k],
            ),
    decreases ws.len(),
{
    if ws.len() == 1 {
        assert forall|k: int| 0 <= k < join_words(ws).len() implies #[trigger] join_words(ws)[k]
            == ' ' || pred(join_words(ws)[k]) by {
            assert(pred(ws[0][k]));
        }
    } else if ws.len() > 1 {
        let init = ws.drop_last();
        assert forall|i: int, j: int| 0 <= i < init.len() && 0 <= j < init[i].len() implies pred(
            #[trigger] init[i][j],
        ) by {
            assert(init[i] == ws[i]);
        }
        lemma_join_chars(init, pred);
        let a = join_words(init);
        let w = ws.last();
        let r = a + seq![' '] + w;
        assert(join_words(ws) == r);
        assert forall|k: int| 0 <= k < r.len() implies #[trigger] r[k] == ' ' || pred(r[k]) by {
            if k < a.len() {
                assert(r[k] == a[k]);
            } else if k > a.len() {
                assert(r[k] == w[k - a.len() - 1]);
                assert(pred(ws[ws.len() - 1][k - a.len() - 1]));
            }
        }
    }
}

/// Collapsing whitespace introduces no character but the space.
pub proof fn lemma_collapse_chars(s: Seq<char>, pred: spec_fn(char) -> bool)
    requires
        forall|i: int| 0 <= i < s.len() ==> is_ws(#[trigger] s[i]) || pred(s[i]),
    ensures
        forall|k: int|
            0 <= k < collapse_ws(s).len() ==> #[trigger] collapse_ws(s)[k] == ' ' || pred(
                collapse_ws(s)[k],
            ),
{
    lemma_words_chars(s, pred);
    lemma_join_chars(words(s), pred);
}

/// Trimming a prefix of clean text gives clean text, made of characters of
/// that prefix.
pub proof fn lemma_trim_prefix_clean(s: Seq<char>, i: int)
    requires
        is_clean(s),
        0 <= i <= s.len(),
    ensures
        is_clean(trim_ws(s.take(i))),
        exists|k: int| 0 <= k <= i && trim_ws(s.take(i)) == s.take(k),
{
    let t = s.take(i);
    if t.len() > 0 {
        assert(t[0] == s[0]);
        if is_ws(s[0]) {
            assert(false);
        }
    }
    lemma_trim_start_skip(t, 0);
    assert(t.skip(0) == t);
    let k = if i > 0 && is_ws(s[i - 1]) {
        i - 1
    } else {
        i
    };
    if i > 0 && is_ws(s[i - 1]) {
        assert(!is_ws(s[i - 2]));
        assert(t[k - 1] == s[i - 2]);
    } else if i > 0 {
        assert(t[i - 1] == s[i - 1]);
    }
    assert forall|m: int| k <= m < t.len() implies is_ws(#[trigger] t[m]) by {
        assert(m == i - 1);
        assert(t[m] == s[i - 1]);
    }
    lemma_trim_end_take(t, k);
    assert(t.take(k) == s.take(k));
    let r = s.take(k);
    assert forall|m: int| 0 <= m < r.len() && is_ws(#[trigger] r[m]) implies r[m] == ' ' && 0 < m
        < r.len() - 1 && !is_ws(r[m + 1]) by {
        assert(r[m] == s[m]);
        assert(is_ws(s[m]));
        assert(s[m + 1] == r[m + 1] || m + 1 == r.len());
        if m + 1 == r.len() {
            if k == i && i > 0 {
                assert(!is_ws(s[i - 1]));
            }
            assert(false);
        }
    }
}


/// The decimal representation of a number is made of ASCII digits.
pub proof fn lemma_decimal_is_digits(n: nat)
    ensures
        all_digits(decimal(n)),
        decimal(n).len() > 0,
{
    lemma_decimal_digits(n);
}

} // verus!
