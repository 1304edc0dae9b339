//! Character-level text helpers shared by the parsers of this crate.
//!
//! Everything here works on sequences of `char`; the public functions of the
//! other modules take and return `String`s and convert at their edges.
use vstd::prelude::*;

verus! {

// ---------------------------------------------------------------------------
// Unicode character classes, as std computes them.
// ---------------------------------------------------------------------------

/// Whether std's `char::is_whitespace` holds of `c`: the characters with
/// the Unicode `White_Space` property. They are tab to carriage return,
/// space, next line, no-break space, ogham space mark, en quad to hair space,
/// line separator, paragraph separator, narrow no-break space, medium
/// mathematical space and ideographic space.
pub open spec fn whitespace_char(c: char) -> bool {
    ||| ascii_whitespace(c)
    ||| c == '\u{85}' || c == '\u{a0}' || c == '\u{1680}'
    ||| ('\u{2000}' <= c && c <= '\u{200a}')
    ||| c == '\u{2028}' || c == '\u{2029}' || c == '\u{202f}' || c == '\u{205f}'
    ||| c == '\u{3000}'
}

/// Whether a character beyond ASCII is alphabetic or numeric in Unicode's
/// sense, as std's `char::is_alphanumeric` reports it.
pub uninterp spec fn unicode_alphanumeric(c: char) -> bool;

/// The characters that std's `char::to_lowercase` yields for a character
/// beyond ASCII.
pub uninterp spec fn unicode_lowercase(c: char) -> Seq<char>;

/// ASCII letters and digits: the ASCII characters that are `Alphabetic` or
/// numeric in Unicode.
pub open spec fn ascii_alphanumeric(c: char) -> bool {
    ('0' <= c && c <= '9') || ('a' <= c && c <= 'z') || ('A' <= c && c <= 'Z')
}

/// Whether std's `char::is_alphanumeric` holds of `c`.
pub open spec fn alphanumeric_char(c: char) -> bool {
    if c <= '\x7f' {
        ascii_alphanumeric(c)
    } else {
        unicode_alphanumeric(c)
    }
}

/// The characters that std's `char::to_lowercase` yields for `c`: of an
/// ASCII character its ASCII lowercase.
pub open spec fn lowercase_chars(c: char) -> Seq<char> {
    if c <= '\x7f' {
        seq![ascii_lower(c)]
    } else {
        unicode_lowercase(c)
    }
}

/// The ASCII characters with the Unicode `White_Space` property: tab, line
/// feed, vertical tab, form feed, carriage return and space.
pub open spec fn ascii_whitespace(c: char) -> bool {
    c == ' ' || ('\t' <= c && c <= '\r')
}

/// `char::is_whitespace`: whether `c` has the Unicode `White_Space`
/// property.
pub fn is_whitespace(c: char) -> (b: bool)
    ensures
        b == whitespace_char(c),
{
    c == ' ' || ('\t' <= c && c <= '\r') || c == '\u{85}' || c == '\u{a0}' || c == '\u{1680}'
        || ('\u{2000}' <= c && c <= '\u{200a}') || c == '\u{2028}' || c == '\u{2029}' || c
        == '\u{202f}' || c == '\u{205f}' || c == '\u{3000}'
}

/// Calls `char::is_alphanumeric`: whether `c` has the Unicode `Alphabetic`
/// property or a numeric general category. Of ASCII characters the contract
/// states it in full (letters and digits); beyond ASCII the table is named.
#[verifier::external_body]
pub(crate) fn is_alphanumeric(c: char) -> (b: bool)
    ensures
        b == (if c <= '\x7f' {
            ascii_alphanumeric(c)
        } else {
            unicode_alphanumeric(c)
        }),
{
    c.is_alphanumeric()
}

/// Calls `char::to_lowercase` and collects the characters it yields: the
/// lowercase mapping of Unicode's character database, or `c` itself when it
/// has none. Of ASCII characters the contract states it in full (`A-Z` to
/// `a-z`); beyond ASCII the table is named.
#[verifier::external_body]
pub(crate) fn to_lowercase(c: char) -> (v: Vec<char>)
    ensures
        v@ == (if c <= '\x7f' {
            seq![ascii_lower(c)]
        } else {
            unicode_lowercase(c)
        }),
{
    c.to_lowercase().collect()
}

/// Calls `String::push`, which appends one character.
#[verifier::external_body]
pub(crate) fn push_char(s: &mut String, c: char)
    ensures
        final(s)@ == old(s)@.push(c),
{
    s.push(c)
}

// ---------------------------------------------------------------------------
// ASCII classes
// ---------------------------------------------------------------------------

/// `0-9`, `a-f`, `A-F`.
pub open spec fn is_hex_digit(c: char) -> bool {
    ('0' <= c && c <= '9') || ('a' <= c && c <= 'f') || ('A' <= c && c <= 'F')
}

pub fn hex_digit(c: char) -> (b: bool)
    ensures
        b == is_hex_digit(c),
{
    ('0' <= c && c <= '9') || ('a' <= c && c <= 'f') || ('A' <= c && c <= 'F')
}

/// ASCII lowercase: `A-Z` to `a-z`, every other character unchanged.
pub open spec fn ascii_lower(c: char) -> char {
    if 'A' <= c && c <= 'Z' {
        ((c as u32) + 32) as char
    } else {
        c
    }
}

pub fn to_ascii_lower(c: char) -> (r: char)
    ensures
        r == ascii_lower(c),
{
    if 'A' <= c && c <= 'Z' {
        let b: u8 = c as u8;
        assert(b as u32 == c as u32);
        (b + 32) as char
    } else {
        c
    }
}

pub open spec fn ascii_lower_seq(s: Seq<char>) -> Seq<char> {
    s.map_values(|c: char| ascii_lower(c))
}

// ---------------------------------------------------------------------------
// Trimming
// ---------------------------------------------------------------------------

/// Number of leading characters of `s` that satisfy `p`.
pub open spec fn lead_len(s: Seq<char>, p: spec_fn(char) -> bool) -> nat
    decreases s.len(),
{
    if s.len() > 0 && p(s[0]) {
        1 + lead_len(s.drop_first(), p)
    } else {
        0
    }
}

/// Number of trailing characters of `s` that satisfy `p`.
pub open spec fn trail_len(s: Seq<char>, p: spec_fn(char) -> bool) -> nat
    decreases s.len(),
{
    if s.len() > 0 && p(s.last()) {
        1 + trail_len(s.drop_last(), p)
    } else {
        0
    }
}

pub open spec fn trim_start_by(s: Seq<char>, p: spec_fn(char) -> bool) -> Seq<char> {
    s.skip(lead_len(s, p) as int)
}

pub open spec fn trim_end_by(s: Seq<char>, p: spec_fn(char) -> bool) -> Seq<char> {
    s.take(s.len() - trail_len(s, p))
}

/// All leading and trailing characters satisfying `p` removed.
pub open spec fn trim_by(s: Seq<char>, p: spec_fn(char) -> bool) -> Seq<char> {
    trim_end_by(trim_start_by(s, p), p)
}

pub open spec fn ws() -> spec_fn(char) -> bool {
    |c: char| whitespace_char(c)
}

/// What `str::trim` leaves of `s`.
pub open spec fn trim(s: Seq<char>) -> Seq<char> {
    trim_by(s, ws())
}

/// What `str::trim_start` leaves of `s`.
pub open spec fn trim_start(s: Seq<char>) -> Seq<char> {
    trim_start_by(s, ws())
}

pub proof fn lemma_trim_bounds(s: Seq<char>, p: spec_fn(char) -> bool)
    ensures
        lead_len(s, p) <= s.len(),
        trail_len(s, p) <= s.len(),
    decreases s.len(),
{
    if s.len() > 0 {
        lemma_trim_bounds(s.drop_first(), p);
        lemma_trim_bounds(s.drop_last(), p);
    }
}

pub proof fn lemma_lead_len(s: Seq<char>, p: spec_fn(char) -> bool, i: int)
    requires
        0 <= i <= s.len(),
        forall|k: int| 0 <= k < i ==> p(#[trigger] s[k]),
        i == s.len() || !p(s[i]),
    ensures
        lead_len(s, p) == i,
        lead_len(s, p) <= s.len(),
    decreases i,
{
    if i > 0 {
        let t = s.drop_first();
        assert forall|k: int| 0 <= k < i - 1 implies p(#[trigger] t[k]) by {
            assert(t[k] == s[k + 1]);
        }
        if i - 1 < t.len() {
            assert(t[i - 1] == s[i]);
        }
        lemma_lead_len(t, p, i - 1);
    }
}

pub proof fn lemma_trail_len(s: Seq<char>, p: spec_fn(char) -> bool, j: int)
    requires
        0 <= j <= s.len(),
        forall|k: int| j <= k < s.len() ==> p(#[trigger] s[k]),
        j == 0 || !p(s[j - 1]),
    ensures
        trail_len(s, p) == s.len() - j,
    decreases s.len() - j,
{
    if j < s.len() {
        let t = s.drop_last();
        assert forall|k: int| j <= k < t.len() implies p(#[trigger] t[k]) by {
            assert(t[k] == s[k]);
        }
        if j > 0 {
            assert(t[j - 1] == s[j - 1]);
        }
        assert(p(s[s.len() - 1]));
        lemma_trail_len(t, p, j);
    }
}

/// The character right after the leading run does not satisfy `p`.
pub proof fn lemma_lead_stop(s: Seq<char>, p: spec_fn(char) -> bool)
    ensures
        lead_len(s, p) < s.len() ==> !p(s[lead_len(s, p) as int]),
    decreases s.len(),
{
    lemma_trim_bounds(s, p);
    if s.len() > 0 && p(s[0]) {
        let t = s.drop_first();
        lemma_lead_stop(t, p);
        lemma_trim_bounds(t, p);
        if lead_len(s, p) < s.len() {
            assert(s[lead_len(s, p) as int] == t[lead_len(t, p) as int]);
        }
    }
}

/// The character right before the trailing run does not satisfy `p`.
pub proof fn lemma_trail_stop(s: Seq<char>, p: spec_fn(char) -> bool)
    ensures
        trail_len(s, p) < s.len() ==> !p(s[s.len() - trail_len(s, p) - 1]),
    decreases s.len(),
{
    lemma_trim_bounds(s, p);
    if s.len() > 0 && p(s.last()) {
        let t = s.drop_last();
        lemma_trail_stop(t, p);
        lemma_trim_bounds(t, p);
        if trail_len(s, p) < s.len() {
            assert(s[s.len() - trail_len(s, p) - 1] == t[t.len() - trail_len(t, p) - 1]);
        }
    }
}

/// What trimming leaves is the middle of `s`: its `k`-th character is the
/// one after the leading run and `k` more.
pub proof fn lemma_trim_by_index(s: Seq<char>, p: spec_fn(char) -> bool, k: int)
    requires
        0 <= k < trim_by(s, p).len(),
    ensures
        lead_len(s, p) + k < s.len(),
        trim_by(s, p)[k] == s[lead_len(s, p) + k],
{
    lemma_trim_bounds(s, p);
    lemma_trim_bounds(trim_start_by(s, p), p);
}

/// Trimming twice trims nothing more.
pub proof fn lemma_trim_by_idempotent(s: Seq<char>, p: spec_fn(char) -> bool)
    ensures
        trim_by(trim_by(s, p), p) == trim_by(s, p),
{
    let u = trim_start_by(s, p);
    let t = trim_end_by(u, p);
    lemma_trim_bounds(s, p);
    lemma_trim_bounds(u, p);
    lemma_lead_stop(s, p);
    lemma_trail_stop(u, p);
    if t.len() > 0 {
        assert(t[0] == u[0]);
        assert(u[0] == s[lead_len(s, p) as int]);
        assert(lead_len(t, p) == 0);
        assert(t.last() == u[u.len() - trail_len(u, p) - 1]);
        assert(trim_start_by(t, p) =~= t);
        assert(trail_len(t, p) == 0);
    }
    assert(trim_by(t, p) =~= t);
}

/// Copy of `v[a..b]`.
pub fn sub_chars(v: &Vec<char>, a: usize, b: usize) -> (r: Vec<char>)
    requires
        a <= b <= v.len(),
    ensures
        r@ == v@.subrange(a as int, b as int),
{
    let mut r: Vec<char> = Vec::new();
    let mut i = a;
    while i < b
        invariant
            a <= i <= b <= v.len(),
            r@ == v@.subrange(a as int, i as int),
        decreases b - i,
    {
        r.push(v[i]);
        i += 1;
        assert(r@ =~= v@.subrange(a as int, i as int));
    }
    r
}

/// `str::trim_start` on a sequence of characters.
pub fn trim_start_chars(v: &Vec<char>) -> (r: Vec<char>)
    ensures
        r@ == trim_start(v@),
{
    let mut i: usize = 0;
    while i < v.len() && is_whitespace(v[i])
        invariant
            i <= v.len(),
            forall|k: int| 0 <= k < i ==> whitespace_char(#[trigger] v@[k]),
        decreases v.len() - i,
    {
        i += 1;
    }
    proof {
        lemma_lead_len(v@, ws(), i as int);
    }
    sub_chars(v, i, v.len())
}

/// `str::trim` on a sequence of characters.
pub fn trim_chars(v: &Vec<char>) -> (r: Vec<char>)
    ensures
        r@ == trim(v@),
{
    let s = trim_start_chars(v);
    let mut j: usize = s.len();
    while j > 0 && is_whitespace(s[j - 1])
        invariant
            j <= s.len(),
            forall|k: int| j <= k < s.len() ==> whitespace_char(#[trigger] s@[k]),
        decreases j,
    {
        j -= 1;
    }
    proof {
        lemma_trail_len(s@, ws(), j as int);
    }
    sub_chars(&s, 0, j)
}

// ---------------------------------------------------------------------------
// Conversions
// ---------------------------------------------------------------------------

pub fn chars_of(s: &str) -> (res: Vec<char>)
    ensures
        res@ == s@,
{
    let mut v: Vec<char> = Vec::new();
    for c in it: s.chars()
        invariant
            v@ == it.seq().take(it.index() as int),
            it.seq() == s@,
    {
        v.push(c);
    }
    v
}

pub fn string_of(v: &Vec<char>) -> (s: String)
    ensures
        s@ == v@,
{
    let mut s = String::new();
    let mut i: usize = 0;
    while i < v.len()
        invariant
            i <= v.len(),
            s@ == v@.take(i as int),
        decreases v.len() - i,
    {
        push_char(&mut s, v[i]);
        i += 1;
        assert(s@ =~= v@.take(i as int));
    }
    assert(v@.take(v.len() as int) =~= v@);
    s
}

pub fn push_str_chars(s: &mut String, v: &Vec<char>)
    ensures
        final(s)@ == old(s)@ + v@,
{
    let mut i: usize = 0;
    while i < v.len()
        invariant
            i <= v.len(),
            s@ == old(s)@ + v@.take(i as int),
        decreases v.len() - i,
    {
        push_char(s, v[i]);
        i += 1;
        assert(s@ =~= old(s)@ + v@.take(i as int));
    }
    assert(v@.take(v.len() as int) =~= v@);
}

// ---------------------------------------------------------------------------
// Searching and splitting
// ---------------------------------------------------------------------------

/// Index of the first `c` in `s` at or after `i`, or `s.len()`.
pub open spec fn find_from(s: Seq<char>, c: char, i: int) -> int
    decreases s.len() - i,
{
    if i >= s.len() || i < 0 {
        s.len() as int
    } else if s[i] == c {
        i
    } else {
        find_from(s, c, i + 1)
    }
}

/// Index of the first `c` in `s`, or `s.len()` when there is none.
pub open spec fn find(s: Seq<char>, c: char) -> int {
    find_from(s, c, 0)
}

pub proof fn lemma_find_from(s: Seq<char>, c: char, j: int, k: int)
    requires
        0 <= j <= k <= s.len(),
        forall|m: int| j <= m < k ==> #[trigger] s[m] != c,
        k == s.len() || s[k] == c,
    ensures
        find_from(s, c, j) == k,
    decreases k - j,
{
    if j < k {
        lemma_find_from(s, c, j + 1, k);
    }
}

pub proof fn lemma_find(s: Seq<char>, c: char, k: int)
    requires
        0 <= k <= s.len(),
        forall|m: int| 0 <= m < k ==> #[trigger] s[m] != c,
        k == s.len() || s[k] == c,
    ensures
        find(s, c) == k,
{
    lemma_find_from(s, c, 0, k);
}

pub proof fn lemma_find_bounds(s: Seq<char>, c: char, j: int)
    requires
        0 <= j <= s.len(),
    ensures
        j <= find_from(s, c, j) <= s.len(),
        find_from(s, c, j) < s.len() ==> s[find_from(s, c, j)] == c,
        forall|m: int| j <= m < find_from(s, c, j) ==> #[trigger] s[m] != c,
    decreases s.len() - j,
{
    if j < s.len() && s[j] != c {
        lemma_find_bounds(s, c, j + 1);
    }
}

/// Index of the first `c` in `v`, or `v.len()`.
pub fn find_char(v: &Vec<char>, c: char) -> (i: usize)
    ensures
        i == find(v@, c),
        i <= v.len(),
{
    let mut i: usize = 0;
    while i < v.len() && v[i] != c
        invariant
            i <= v.len(),
            forall|m: int| 0 <= m < i ==> #[trigger] v@[m] != c,
        decreases v.len() - i,
    {
        i += 1;
    }
    proof {
        lemma_find(v@, c, i as int);
    }
    i
}

/// What `str::split_once(c)` returns.
pub open spec fn split_once(s: Seq<char>, c: char) -> Option<(Seq<char>, Seq<char>)> {
    let i = find(s, c);
    if i < s.len() {
        Some((s.take(i), s.skip(i + 1)))
    } else {
        None
    }
}

pub fn split_once_chars(v: &Vec<char>, c: char) -> (r: Option<(Vec<char>, Vec<char>)>)
    ensures
        match r {
            Some((a, b)) => split_once(v@, c) == Some((a@, b@)),
            None => split_once(v@, c) is None,
        },
{
    let i = find_char(v, c);
    if i < v.len() {
        let a = sub_chars(v, 0, i);
        let b = sub_chars(v, i + 1, v.len());
        Some((a, b))
    } else {
        None
    }
}

/// `p` is a prefix of `s`.
pub fn starts_with_chars(s: &Vec<char>, p: &Vec<char>) -> (b: bool)
    ensures
        b == p@.is_prefix_of(s@),
{
    if p.len() > s.len() {
        return false;
    }
    let mut i: usize = 0;
    while i < p.len()
        invariant
            p.len() <= s.len(),
            i <= p.len(),
            forall|k: int| 0 <= k < i ==> p@[k] == s@[k],
        decreases p.len() - i,
    {
        if p[i] != s[i] {
            return false;
        }
        i += 1;
    }
    true
}

pub fn eq_chars(a: &Vec<char>, b: &Vec<char>) -> (r: bool)
    ensures
        r == (a@ == b@),
{
    if a.len() != b.len() {
        return false;
    }
    let mut i: usize = 0;
    while i < a.len()
        invariant
            a.len() == b.len(),
            i <= a.len(),
            forall|k: int| 0 <= k < i ==> a@[k] == b@[k],
        decreases a.len() - i,
    {
        if a[i] != b[i] {
            return false;
        }
        i += 1;
    }
    assert(a@ =~= b@);
    true
}

// ---------------------------------------------------------------------------
// Lines
// ---------------------------------------------------------------------------

/// The character sequences held by a sequence of vectors.
pub open spec fn views(v: Seq<Vec<char>>) -> Seq<Seq<char>> {
    v.map_values(|x: Vec<char>| x@)
}

/// One trailing `'\r'` removed, if there is one.
pub open spec fn strip_cr(s: Seq<char>) -> Seq<char> {
    if s.len() > 0 && s.last() == '\r' {
        s.drop_last()
    } else {
        s
    }
}

/// What `str::lines` yields: pieces split at `'\n'` (a `'\r'` before the
/// `'\n'` is dropped), with no empty piece after a final line ending.
pub open spec fn lines(s: Seq<char>) -> Seq<Seq<char>>
    decreases s.len(),
{
    if s.len() == 0 {
        seq![]
    } else {
        let i = find(s, '\n');
        if i < s.len() && 0 <= i {
            seq![strip_cr(s.take(i))] + lines(s.skip(i + 1))
        } else {
            seq![s]
        }
    }
}

pub fn strip_cr_chars(v: Vec<char>) -> (r: Vec<char>)
    ensures
        r@ == strip_cr(v@),
{
    let mut v = v;
    if v.len() > 0 && v[v.len() - 1] == '\r' {
        v.pop();
    }
    v
}

pub fn lines_of(v: &Vec<char>) -> (out: Vec<Vec<char>>)
    ensures
        views(out@) == lines(v@),
{
    let mut out: Vec<Vec<char>> = Vec::new();
    let mut start: usize = 0;
    let mut i: usize = 0;
    assert(v@.skip(0) =~= v@);
    while i < v.len()
        invariant
            start <= i <= v.len(),
            lines(v@) == views(out@) + lines(v@.skip(start as int)),
            forall|m: int| start <= m < i ==> #[trigger] v@[m] != '\n',
        decreases v.len() - i,
    {
        if v[i] == '\n' {
            let ghost rest = v@.skip(start as int);
            proof {
                assert forall|m: int| 0 <= m < i - start implies #[trigger] rest[m] != '\n' by {
                    assert(rest[m] == v@[start + m]);
                }
                lemma_find(rest, '\n', i - start);
                assert(rest.take(i - start) =~= v@.subrange(start as int, i as int));
                assert(rest.skip(i - start + 1) =~= v@.skip(i + 1));
            }
            let line = strip_cr_chars(sub_chars(v, start, i));
            let ghost before = views(out@);
            out.push(line);
            proof {
                assert(views(out@) =~= before.push(line@));
                assert(lines(rest) == seq![strip_cr(rest.take(i - start))] + lines(rest.skip(i - start + 1)));
                assert(lines(v@) =~= views(out@) + lines(v@.skip(i + 1)));
            }
            start = i + 1;
        }
        i += 1;
    }
    if start < v.len() {
        let ghost rest = v@.skip(start as int);
        proof {
            assert forall|m: int| 0 <= m < rest.len() implies #[trigger] rest[m] != '\n' by {
                assert(rest[m] == v@[start + m]);
            }
            lemma_find(rest, '\n', rest.len() as int);
        }
        let line = sub_chars(v, start, v.len());
        let ghost before = views(out@);
        out.push(line);
        proof {
            assert(line@ =~= rest);
            assert(views(out@) =~= before.push(line@));
            assert(lines(v@) =~= views(out@));
        }
    } else {
        proof {
            assert(v@.skip(start as int) =~= Seq::<char>::empty());
            assert(lines(v@) =~= views(out@));
        }
    }
    out
}


/// What `str::split(c)` yields: the pieces between occurrences of `c`, empty
/// ones included; there is always at least one.
pub open spec fn split(s: Seq<char>, c: char) -> Seq<Seq<char>>
    decreases s.len(),
{
    let i = find(s, c);
    if 0 <= i < s.len() {
        seq![s.take(i)] + split(s.skip(i + 1), c)
    } else {
        seq![s]
    }
}

pub proof fn lemma_split_len(s: Seq<char>, c: char)
    ensures
        split(s, c).len() >= 1,
    decreases s.len(),
{
    let i = find(s, c);
    lemma_find_bounds(s, c, 0);
    if 0 <= i < s.len() {
        lemma_split_len(s.skip(i + 1), c);
    }
}

pub fn split_chars(v: &Vec<char>, c: char) -> (out: Vec<Vec<char>>)
    ensures
        views(out@) == split(v@, c),
        out.len() >= 1,
{
    let mut out: Vec<Vec<char>> = Vec::new();
    let mut start: usize = 0;
    let mut i: usize = 0;
    assert(v@.skip(0) =~= v@);
    while i < v.len()
        invariant
            start <= i <= v.len(),
            split(v@, c) == views(out@) + split(v@.skip(start as int), c),
            forall|m: int| start <= m < i ==> #[trigger] v@[m] != c,
        decreases v.len() - i,
    {
        if v[i] == c {
            let ghost rest = v@.skip(start as int);
            proof {
                assert forall|m: int| 0 <= m < i - start implies #[trigger] rest[m] != c by {
                    assert(rest[m] == v@[start + m]);
                }
                lemma_find(rest, c, i - start);
                assert(rest.take(i - start) =~= v@.subrange(start as int, i as int));
                assert(rest.skip(i - start + 1) =~= v@.skip(i + 1));
            }
            let piece = sub_chars(v, start, i);
            let ghost before = views(out@);
            out.push(piece);
            proof {
                assert(views(out@) =~= before.push(piece@));
                assert(split(v@, c) =~= views(out@) + split(v@.skip(i + 1), c));
            }
            start = i + 1;
        }
        i += 1;
    }
    let ghost rest = v@.skip(start as int);
    proof {
        assert forall|m: int| 0 <= m < rest.len() implies #[trigger] rest[m] != c by {
            assert(rest[m] == v@[start + m]);
        }
        lemma_find(rest, c, rest.len() as int);
    }
    let piece = sub_chars(v, start, v.len());
    let ghost before = views(out@);
    out.push(piece);
    proof {
        assert(piece@ =~= rest);
        assert(views(out@) =~= before.push(piece@));
        assert(split(v@, c) =~= views(out@));
    }
    out
}


/// A line break after an already trimmed, non-empty text is trimmed away
/// again.
pub proof fn lemma_trim_newline(command: Seq<char>)
    requires
        command.len() > 0,
        trim(command) == command,
    ensures
        trim(command + seq!['\n']) == command,
{
    let s = command + seq!['\n'];
    let n = command.len();
    let lead = lead_len(command, ws());
    let t = trim_start_by(command, ws());
    lemma_trim_bounds(command, ws());
    lemma_trim_bounds(t, ws());
    assert(trim(command).len() == n - lead - trail_len(t, ws()));
    assert(lead == 0);
    assert(t =~= command);
    assert(trail_len(command, ws()) == 0);
    assert(!whitespace_char(command[0]));
    assert(s[0] == command[0]);
    assert(lead_len(s, ws()) == 0);
    assert(trim_start_by(s, ws()) =~= s);
    assert(s.last() == '\n');
    assert(whitespace_char('\n'));
    assert(s.drop_last() =~= command);
    assert(trail_len(s, ws()) == 1 + trail_len(command, ws()));
    assert(trim(s) =~= command);
}

/// When the pieces of `b` begin the pieces of `a`, the text `b` begins the
/// text `a`.
pub proof fn lemma_split_prefix(a: Seq<char>, b: Seq<char>, c: char)
    requires
        split(b, c).is_prefix_of(split(a, c)),
    ensures
        b.is_prefix_of(a),
    decreases b.len(),
{
    lemma_find_bounds(a, c, 0);
    lemma_find_bounds(b, c, 0);
    lemma_split_len(a, c);
    lemma_split_len(b, c);
    let ia = find(a, c);
    let ib = find(b, c);
    let sa = split(a, c);
    let sb = split(b, c);
    assert(sb[0] == sa[0]) by {
        assert(sb[0] == sa.subrange(0, sb.len() as int)[0]);
    }
    if ib < b.len() {
        let rb = b.skip(ib + 1);
        lemma_split_len(rb, c);
        assert(sb =~= seq![b.take(ib)] + split(rb, c));
        assert(sb.len() >= 2);
        if ia >= a.len() {
            assert(sa =~= seq![a]);
        }
        let ra = a.skip(ia + 1);
        assert(sa =~= seq![a.take(ia)] + split(ra, c));
        assert(b.take(ib) == a.take(ia));
        assert(ib == ia);
        assert(split(rb, c).is_prefix_of(split(ra, c))) by {
            assert forall|m: int| 0 <= m < split(rb, c).len() implies split(rb, c)[m] == split(
                ra,
                c,
            )[m] by {
                assert(split(rb, c)[m] == sb[m + 1]);
                assert(split(ra, c)[m] == sa[m + 1]);
                assert(sb[m + 1] == sa.subrange(0, sb.len() as int)[m + 1]);
            }
            assert(split(rb, c) =~= split(ra, c).subrange(0, split(rb, c).len() as int));
        }
        lemma_split_prefix(ra, rb, c);
        assert forall|m: int| 0 <= m < b.len() implies b[m] == a[m] by {
            if m < ib {
                assert(b[m] == b.take(ib)[m]);
                assert(a[m] == a.take(ia)[m]);
            } else if m > ib {
                assert(b[m] == rb[m - ib - 1]);
                assert(a[m] == ra[m - ia - 1]);
                assert(rb[m - ib - 1] == ra.subrange(0, rb.len() as int)[m - ib - 1]);
            }
        }
        assert(b =~= a.subrange(0, b.len() as int));
    } else {
        assert(sb =~= seq![b]);
        if ia < a.len() {
            assert(sa =~= seq![a.take(ia)] + split(a.skip(ia + 1), c));
            assert(b =~= a.subrange(0, b.len() as int));
        } else {
            assert(sa =~= seq![a]);
            assert(b =~= a.subrange(0, b.len() as int));
        }
    }
}

} // verus!
