//! Colour literals in hand-edited configuration that duplicate a colour of
//! the current theme: those will not follow the next theme switch.
use vstd::prelude::*;
use crate::assoc::distinct_keys;
use crate::text::{
    alphanumeric_char, ascii_lower, ascii_lower_seq, chars_of, eq_chars, find, find_char, hex_digit,
    is_alphanumeric, is_hex_digit, lines, lines_of, split_once, split_once_chars,
    starts_with_chars, string_of, sub_chars, to_ascii_lower, trim, trim_chars, trim_start,
    trim_start_chars, views,
};

verus! {

// ---------------------------------------------------------------------------
// hex_literals
// ---------------------------------------------------------------------------

/// First index at or after `i` whose character is not a hex digit.
pub open spec fn hex_run_end(s: Seq<char>, i: int) -> int
    decreases s.len() - i,
{
    if i < 0 || i >= s.len() || !is_hex_digit(s[i]) {
        i
    } else {
        hex_run_end(s, i + 1)
    }
}

pub proof fn lemma_hex_run_end(s: Seq<char>, i: int, j: int)
    requires
        0 <= i <= j <= s.len(),
        forall|k: int| i <= k < j ==> is_hex_digit(#[trigger] s[k]),
        j == s.len() || !is_hex_digit(s[j]),
    ensures
        hex_run_end(s, i) == j,
    decreases j - i,
{
    if i < j {
        lemma_hex_run_end(s, i + 1, j);
    }
}

pub proof fn lemma_hex_run_end_grows(s: Seq<char>, i: int)
    requires
        0 <= i < s.len(),
        is_hex_digit(s[i]),
    ensures
        i < hex_run_end(s, i) <= s.len(),
        forall|k: int| i <= k < hex_run_end(s, i) ==> is_hex_digit(#[trigger] s[k]),
    decreases s.len() - i,
{
    reveal_with_fuel(hex_run_end, 2);
    if i + 1 < s.len() && is_hex_digit(s[i + 1]) {
        lemma_hex_run_end_grows(s, i + 1);
    }
}

/// Characters that may stand right before a colour literal.
pub open spec fn opens_literal(c: char) -> bool {
    c == '#' || c == '(' || c == '"' || c == '\'' || c == ' ' || c == '='
}

/// The maximal run of hex digits `s[i..j]` is a colour literal: six or eight
/// digits, opened by one of `# ( " ' space =` or the start of the line, and
/// not followed by a letter, digit or underscore.
pub open spec fn is_literal_run(s: Seq<char>, i: int, j: int) -> bool {
    &&& (j - i == 6 || j - i == 8)
    &&& (i == 0 || opens_literal(s[i - 1]))
    &&& (j == s.len() || (!alphanumeric_char(s[j]) && s[j] != '_'))
}

/// The literals found in `s` from position `i` on, each as its first six
/// digits in lowercase.
pub open spec fn literals_from(s: Seq<char>, i: int) -> Seq<Seq<char>>
    decreases s.len() - i,
{
    if i < 0 || i >= s.len() {
        seq![]
    } else if !is_hex_digit(s[i]) {
        literals_from(s, i + 1)
    } else {
        let j = hex_run_end(s, i);
        proof {
            lemma_hex_run_end_grows(s, i);
        }
        (if is_literal_run(s, i, j) {
            seq![ascii_lower_seq(s.subrange(i, i + 6))]
        } else {
            seq![]
        }) + literals_from(s, j)
    }
}

/// `#rrggbb`, `rgb(rrggbb)` and `rgba(rrggbbaa)` literals of a line, each
/// normalised to lowercase `rrggbb`, in the order they appear.
pub open spec fn spec_hex_literals(line: Seq<char>) -> Seq<Seq<char>> {
    literals_from(line, 0)
}

/// The character sequences held by a sequence of strings.
pub open spec fn strings(v: Seq<String>) -> Seq<Seq<char>> {
    v.map_values(|x: String| x@)
}

fn lower_six(b: &Vec<char>, start: usize) -> (s: String)
    requires
        start + 6 <= b.len(),
    ensures
        s@ == ascii_lower_seq(b@.subrange(start as int, start + 6)),
{
    let mut v: Vec<char> = Vec::new();
    let mut k: usize = 0;
    while k < 6
        invariant
            k <= 6,
            start + 6 <= b.len(),
            v@ == ascii_lower_seq(b@.subrange(start as int, start + k)),
        decreases 6 - k,
    {
        let c = to_ascii_lower(b[start + k]);
        v.push(c);
        k += 1;
        assert(v@ =~= ascii_lower_seq(b@.subrange(start as int, start + k)));
    }
    string_of(&v)
}

/// `#rrggbb`, `rgb(rrggbb)` and `rgba(rrggbbaa)` all normalise to `rrggbb`.
pub fn hex_literals(line: &str) -> (found: Vec<String>)
    ensures
        strings(found@) == spec_hex_literals(line@),
{
    let b = chars_of(line);
    let mut found: Vec<String> = Vec::new();
    let mut index: usize = 0;
    while index < b.len()
        invariant
            index <= b.len(),
            b@ == line@,
            spec_hex_literals(b@) == strings(found@) + literals_from(b@, index as int),
            index == 0 || index == b.len() || !is_hex_digit(b@[index - 1]) || !is_hex_digit(
                b@[index as int],
            ),
        decreases b.len() - index,
    {
        let run_start = index;
        while index < b.len() && hex_digit(b[index])
            invariant
                run_start <= index <= b.len(),
                forall|k: int| run_start <= k < index ==> is_hex_digit(#[trigger] b@[k]),
            decreases b.len() - index,
        {
            index += 1;
        }
        let ghost before = found@;
        if index == run_start {
            index += 1;
        } else {
            proof {
                lemma_hex_run_end(b@, run_start as int, index as int);
            }
            let len = index - run_start;
            if len == 6 || len == 8 {
                let opened = run_start == 0 || {
                    let c = b[run_start - 1];
                    c == '#' || c == '(' || c == '"' || c == '\'' || c == ' ' || c == '='
                };
                let closed = index == b.len() || (!is_alphanumeric(b[index]) && b[index] != '_');
                if opened && closed {
                    let hex = lower_six(&b, run_start);
                    found.push(hex);
                    assert(strings(found@) =~= strings(before) + seq![hex@]);
                }
            }
            assert(literals_from(b@, run_start as int) == (if is_literal_run(
                b@,
                run_start as int,
                index as int,
            ) {
                seq![ascii_lower_seq(b@.subrange(run_start as int, run_start + 6))]
            } else {
                seq![]
            }) + literals_from(b@, index as int));
            assert(spec_hex_literals(b@) =~= strings(found@) + literals_from(b@, index as int));
        }
    }
    found
}

// ---------------------------------------------------------------------------
// The palette of colors.toml
// ---------------------------------------------------------------------------

/// The six characters after the first `#` of `value`, when there are six and
/// all are hex digits.
pub open spec fn hex_after_hash(value: Seq<char>) -> Option<Seq<char>> {
    let h = find(value, '#');
    let rest = value.skip(h + 1);
    if h < value.len() && rest.len() >= 6 && (forall|k: int|
        0 <= k < 6 ==> is_hex_digit(#[trigger] rest[k])) {
        Some(rest.take(6))
    } else {
        None
    }
}

/// What one line of `colors.toml` contributes: `key = "#rrggbb"` gives the
/// lowercase `rrggbb` and the key. Comment lines, lines without `=` and
/// values without six hex digits after a `#` give nothing; anything after the
/// six digits (a trailing comment) is ignored.
pub open spec fn palette_entry(line: Seq<char>) -> Option<(Seq<char>, Seq<char>)> {
    let l = trim(line);
    if l.len() > 0 && l[0] == '#' {
        None
    } else {
        match split_once(l, '=') {
            None => None,
            Some((k, v)) => match hex_after_hash(trim(v)) {
                None => None,
                Some(hex) => Some((ascii_lower_seq(hex), trim(k))),
            },
        }
    }
}

/// `hex` is already a colour of the palette `p`.
pub open spec fn has_hex(p: Seq<(Seq<char>, Seq<char>)>, hex: Seq<char>) -> bool {
    exists|i: int| 0 <= i < p.len() && (#[trigger] p[i]).0 == hex
}

/// The palette read from `ls`, line after line; a colour keeps the first key
/// that named it.
pub open spec fn palette_of_lines(ls: Seq<Seq<char>>) -> Seq<(Seq<char>, Seq<char>)>
    decreases ls.len(),
{
    if ls.len() == 0 {
        seq![]
    } else {
        let p = palette_of_lines(ls.drop_last());
        match palette_entry(ls.last()) {
            Some((hex, key)) => if has_hex(p, hex) {
                p
            } else {
                p.push((hex, key))
            },
            None => p,
        }
    }
}

/// The palette of a `colors.toml` text: each colour, as lowercase `rrggbb`,
/// with the key that names it.
pub open spec fn spec_palette(raw: Seq<char>) -> Seq<(Seq<char>, Seq<char>)> {
    palette_of_lines(lines(raw))
}

/// The key that `p` gives to `hex`.
pub open spec fn palette_get(p: Seq<(Seq<char>, Seq<char>)>, hex: Seq<char>) -> Option<
    Seq<char>,
>
    decreases p.len(),
{
    if p.len() == 0 {
        None
    } else if p[0].0 == hex {
        Some(p[0].1)
    } else {
        palette_get(p.drop_first(), hex)
    }
}

/// Theme colours indexed the other way round, so that a literal can be
/// traced back to the key it duplicates.
pub struct Palette {
    entries: Vec<(Vec<char>, Vec<char>)>,
}

pub open spec fn entry_views(v: Seq<(Vec<char>, Vec<char>)>) -> Seq<(Seq<char>, Seq<char>)> {
    v.map_values(|e: (Vec<char>, Vec<char>)| (e.0@, e.1@))
}

impl View for Palette {
    type V = Seq<(Seq<char>, Seq<char>)>;

    closed spec fn view(&self) -> Seq<(Seq<char>, Seq<char>)> {
        entry_views(self.entries@)
    }
}

fn contains_hex(entries: &Vec<(Vec<char>, Vec<char>)>, hex: &Vec<char>) -> (b: bool)
    ensures
        b == has_hex(entry_views(entries@), hex@),
{
    let mut i: usize = 0;
    while i < entries.len()
        invariant
            i <= entries.len(),
            forall|k: int| 0 <= k < i ==> entries@[k].0@ != hex@,
        decreases entries.len() - i,
    {
        if eq_chars(&entries[i].0, hex) {
            assert(entry_views(entries@)[i as int].0 == hex@);
            return true;
        }
        i += 1;
    }
    assert forall|k: int| 0 <= k < entry_views(entries@).len() implies (#[trigger] entry_views(
        entries@,
    )[k]).0 != hex@ by {
        assert(entry_views(entries@)[k].0 == entries@[k].0@);
    }
    false
}

fn hex_after_hash_chars(value: &Vec<char>) -> (r: Option<Vec<char>>)
    ensures
        match r {
            Some(h) => hex_after_hash(value@) == Some(h@),
            None => hex_after_hash(value@) is None,
        },
{
    let h = find_char(value, '#');
    if h >= value.len() {
        return None;
    }
    let rest = sub_chars(value, h + 1, value.len());
    assert(rest@ =~= value@.skip(h + 1));
    if rest.len() < 6 {
        assert(value@.skip(h + 1).len() < 6);
        return None;
    }
    let mut k: usize = 0;
    while k < 6
        invariant
            k <= 6,
            rest.len() >= 6,
            rest@ == value@.skip(h + 1),
            h == find(value@, '#'),
            h < value.len(),
            forall|m: int| 0 <= m < k ==> is_hex_digit(#[trigger] rest@[m]),
        decreases 6 - k,
    {
        if !hex_digit(rest[k]) {
            assert(!is_hex_digit(rest@[k as int]));
            return None;
        }
        k += 1;
    }
    let six = sub_chars(&rest, 0, 6);
    assert(six@ =~= rest@.take(6));
    Some(six)
}

fn lower_chars(v: &Vec<char>) -> (r: Vec<char>)
    ensures
        r@ == ascii_lower_seq(v@),
{
    let mut r: Vec<char> = Vec::new();
    let mut i: usize = 0;
    while i < v.len()
        invariant
            i <= v.len(),
            r@ == ascii_lower_seq(v@.take(i as int)),
        decreases v.len() - i,
    {
        r.push(to_ascii_lower(v[i]));
        i += 1;
        assert(r@ =~= ascii_lower_seq(v@.take(i as int)));
    }
    assert(v@.take(v.len() as int) =~= v@);
    r
}

fn palette_entry_chars(line: &Vec<char>) -> (r: Option<(Vec<char>, Vec<char>)>)
    ensures
        match r {
            Some((h, k)) => palette_entry(line@) == Some((h@, k@)),
            None => palette_entry(line@) is None,
        },
{
    let l = trim_chars(line);
    if l.len() > 0 && l[0] == '#' {
        return None;
    }
    match split_once_chars(&l, '=') {
        None => None,
        Some((k, v)) => {
            let value = trim_chars(&v);
            match hex_after_hash_chars(&value) {
                None => None,
                Some(hex) => {
                    let key = trim_chars(&k);
                    Some((lower_chars(&hex), key))
                },
            }
        },
    }
}

impl Palette {
    /// Index a `colors.toml` text (flat `key = "#rrggbb"` lines) by colour.
    pub fn parse(raw: &str) -> (p: Palette)
        ensures
            p@ == spec_palette(raw@),
    {
        let ls = lines_of(&chars_of(raw));
        let mut entries: Vec<(Vec<char>, Vec<char>)> = Vec::new();
        let mut i: usize = 0;
        while i < ls.len()
            invariant
                i <= ls.len(),
                views(ls@) == lines(raw@),
                entry_views(entries@) == palette_of_lines(views(ls@).take(i as int)),
            decreases ls.len() - i,
        {
            let ghost prefix = views(ls@).take(i as int);
            let ghost next = views(ls@).take(i + 1);
            assert(next.drop_last() =~= prefix);
            assert(next.last() == ls@[i as int]@);
            match palette_entry_chars(&ls[i]) {
                Some((hex, key)) => {
                    if !contains_hex(&entries, &hex) {
                        let ghost before = entry_views(entries@);
                        entries.push((hex, key));
                        assert(entry_views(entries@) =~= before.push((hex@, key@)));
                    }
                },
                None => {},
            }
            i += 1;
        }
        assert(views(ls@).take(ls.len() as int) =~= views(ls@));
        Palette { entries }
    }

    /// Number of colours.
    pub fn len(&self) -> (n: usize)
        ensures
            n == self@.len(),
    {
        self.entries.len()
    }

    /// The key of the theme that holds colour `hex` (lowercase `rrggbb`).
    pub fn get(&self, hex: &str) -> (k: Option<String>)
        ensures
            match k {
                Some(k) => palette_get(self@, hex@) == Some(k@),
                None => palette_get(self@, hex@) is None,
            },
    {
        let h = chars_of(hex);
        let mut i: usize = 0;
        assert(self@.skip(0) =~= self@);
        while i < self.entries.len()
            invariant
                i <= self.entries.len(),
                palette_get(self@, hex@) == palette_get(self@.skip(i as int), hex@),
                h@ == hex@,
            decreases self.entries.len() - i,
        {
            let ghost rest = self@.skip(i as int);
            assert(rest[0] == (self.entries@[i as int].0@, self.entries@[i as int].1@));
            if eq_chars(&self.entries[i].0, &h) {
                return Some(string_of(&self.entries[i].1));
            }
            assert(rest.drop_first() =~= self@.skip(i + 1));
            i += 1;
        }
        None
    }
}

// ---------------------------------------------------------------------------
// Scanning a file
// ---------------------------------------------------------------------------

/// Lua and C-style comment lines are not scanned.
pub open spec fn is_comment_line(line: Seq<char>) -> bool {
    "--"@.is_prefix_of(trim_start(line)) || "//"@.is_prefix_of(trim_start(line))
}

/// The hits of one line: each literal that the palette knows, with its line
/// number and the key it duplicates.
pub open spec fn hits(
    hexes: Seq<Seq<char>>,
    number: int,
    p: Seq<(Seq<char>, Seq<char>)>,
) -> Seq<(int, Seq<char>, Seq<char>)>
    decreases hexes.len(),
{
    if hexes.len() == 0 {
        seq![]
    } else {
        hits(hexes.drop_last(), number, p) + match palette_get(p, hexes.last()) {
            Some(key) => seq![(number, hexes.last(), key)],
            None => seq![],
        }
    }
}

pub open spec fn line_findings(
    line: Seq<char>,
    number: int,
    p: Seq<(Seq<char>, Seq<char>)>,
) -> Seq<(int, Seq<char>, Seq<char>)> {
    if is_comment_line(line) {
        seq![]
    } else {
        hits(spec_hex_literals(line), number, p)
    }
}

/// Findings over lines `ls`, numbered from 1.
pub open spec fn findings_of_lines(
    ls: Seq<Seq<char>>,
    p: Seq<(Seq<char>, Seq<char>)>,
) -> Seq<(int, Seq<char>, Seq<char>)>
    decreases ls.len(),
{
    if ls.len() == 0 {
        seq![]
    } else {
        findings_of_lines(ls.drop_last(), p) + line_findings(ls.last(), ls.len() as int, p)
    }
}

/// Every colour literal of a file's contents that duplicates a colour of the
/// palette, with its line number (from 1) and the key it duplicates.
pub open spec fn spec_findings(
    contents: Seq<char>,
    p: Seq<(Seq<char>, Seq<char>)>,
) -> Seq<(int, Seq<char>, Seq<char>)> {
    findings_of_lines(lines(contents), p)
}

/// A colour literal that will not follow a theme switch.
pub struct Finding {
    /// Line number, from 1.
    pub line: usize,
    /// The literal, as lowercase `rrggbb`.
    pub hex: String,
    /// The palette key it duplicates.
    pub key: String,
}

pub open spec fn finding_views(v: Seq<Finding>) -> Seq<(int, Seq<char>, Seq<char>)> {
    v.map_values(|f: Finding| (f.line as int, f.hex@, f.key@))
}

fn comment_line(line: &Vec<char>) -> (b: bool)
    ensures
        b == is_comment_line(line@),
{
    let t = trim_start_chars(line);
    let dd = chars_of("--");
    let ss = chars_of("//");
    starts_with_chars(&t, &dd) || starts_with_chars(&t, &ss)
}

/// Report the colour literals of `contents` that duplicate a colour of the
/// current theme, skipping comment lines.
pub fn scan_contents(contents: &str, palette: &Palette) -> (found: Vec<Finding>)
    ensures
        finding_views(found@) == spec_findings(contents@, palette@),
{
    let ls = lines_of(&chars_of(contents));
    let mut found: Vec<Finding> = Vec::new();
    let mut n: usize = 0;
    while n < ls.len()
        invariant
            n <= ls.len(),
            views(ls@) == lines(contents@),
            finding_views(found@) == findings_of_lines(views(ls@).take(n as int), palette@),
        decreases ls.len() - n,
    {
        let ghost prefix = views(ls@).take(n as int);
        let ghost next = views(ls@).take(n + 1);
        assert(next.drop_last() =~= prefix);
        assert(next.last() == ls@[n as int]@);
        let ghost base = finding_views(found@);
        let number = n + 1;
        let line = &ls[n];
        if !comment_line(line) {
            let text = string_of(line);
            let hexes = hex_literals(text.as_str());
            let mut k: usize = 0;
            while k < hexes.len()
                invariant
                    k <= hexes.len(),
                    number == n + 1,
                    finding_views(found@) == base + hits(
                        strings(hexes@).take(k as int),
                        number as int,
                        palette@,
                    ),
                decreases hexes.len() - k,
            {
                let ghost hp = strings(hexes@).take(k as int);
                let ghost hn = strings(hexes@).take(k + 1);
                assert(hn.drop_last() =~= hp);
                assert(hn.last() == hexes@[k as int]@);
                let ghost mid = finding_views(found@);
                match palette.get(hexes[k].as_str()) {
                    Some(key) => {
                        let hex = string_of(&chars_of(hexes[k].as_str()));
                        found.push(Finding { line: number, hex, key });
                        assert(finding_views(found@) =~= mid + seq![
                            (number as int, hex@, key@),
                        ]);
                    },
                    None => {},
                }
                k += 1;
                assert(finding_views(found@) =~= base + hits(hn, number as int, palette@));
            }
            assert(strings(hexes@).take(hexes.len() as int) =~= strings(hexes@));
        }
        n += 1;
        assert(finding_views(found@) =~= findings_of_lines(next, palette@));
    }
    assert(views(ls@).take(ls.len() as int) =~= views(ls@));
    found
}

/// Files a user is likely to hand-edit with colours in them, by extension.
pub fn is_scan_target(extension: &str) -> (b: bool)
    ensures
        b == (extension@ == "lua"@ || extension@ == "conf"@ || extension@ == "json"@
            || extension@ == "jsonc"@ || extension@ == "toml"@),
{
    let e = chars_of(extension);
    eq_chars(&e, &chars_of("lua")) || eq_chars(&e, &chars_of("conf")) || eq_chars(
        &e,
        &chars_of("json"),
    ) || eq_chars(&e, &chars_of("jsonc")) || eq_chars(&e, &chars_of("toml"))
}

// ---------------------------------------------------------------------------
// Laws
// ---------------------------------------------------------------------------

/// `0-9` and `a-f`.
pub open spec fn is_lower_hex_digit(c: char) -> bool {
    ('0' <= c && c <= '9') || ('a' <= c && c <= 'f')
}

/// Six lowercase hex digits: a colour as `rrggbb`.
pub open spec fn is_rrggbb(h: Seq<char>) -> bool {
    h.len() == 6 && forall|k: int| 0 <= k < 6 ==> is_lower_hex_digit(#[trigger] h[k])
}

proof fn lemma_literals_from_rrggbb(s: Seq<char>, i: int)
    ensures
        forall|n: int|
            0 <= n < literals_from(s, i).len() ==> is_rrggbb(#[trigger] literals_from(s, i)[n]),
    decreases s.len() - i,
{
    if i < 0 || i >= s.len() {
    } else if !is_hex_digit(s[i]) {
        lemma_literals_from_rrggbb(s, i + 1);
        assert(literals_from(s, i) == literals_from(s, i + 1));
    } else {
        let j = hex_run_end(s, i);
        lemma_hex_run_end_grows(s, i);
        lemma_literals_from_rrggbb(s, j);
        let rest = literals_from(s, j);
        if is_literal_run(s, i, j) {
            let h = ascii_lower_seq(s.subrange(i, i + 6));
            assert forall|k: int| 0 <= k < 6 implies is_lower_hex_digit(#[trigger] h[k]) by {
                assert(is_hex_digit(s[i + k]));
            }
            let all = seq![h] + rest;
            assert(literals_from(s, i) == all);
            assert forall|n: int| 0 <= n < all.len() implies is_rrggbb(#[trigger] all[n]) by {
                if n > 0 {
                    assert(all[n] == rest[n - 1]);
                }
            }
        } else {
            assert(literals_from(s, i) =~= rest);
        }
    }
}

/// Every colour literal reported is six lowercase hex digits: `#rrggbb`,
/// `rgb(rrggbb)` and `rgba(rrggbbaa)` all come out as `rrggbb`.
pub proof fn law_literals_are_rrggbb(line: Seq<char>)
    ensures
        forall|n: int|
            0 <= n < spec_hex_literals(line).len() ==> is_rrggbb(
                #[trigger] spec_hex_literals(line)[n],
            ),
{
    lemma_literals_from_rrggbb(line, 0);
}

proof fn lemma_get_has(p: Seq<(Seq<char>, Seq<char>)>, hex: Seq<char>)
    ensures
        (palette_get(p, hex) is Some) == has_hex(p, hex),
    decreases p.len(),
{
    if p.len() > 0 {
        let t = p.drop_first();
        lemma_get_has(t, hex);
        if has_hex(t, hex) {
            let i = choose|i: int| 0 <= i < t.len() && (#[trigger] t[i]).0 == hex;
            assert(p[i + 1] == t[i]);
        }
        if has_hex(p, hex) && p[0].0 != hex {
            let i = choose|i: int| 0 <= i < p.len() && (#[trigger] p[i]).0 == hex;
            assert(t[i - 1] == p[i]);
        }
        if p[0].0 == hex {
            assert(p[0] == p[0]);
        }
    }
}

proof fn lemma_get_push(
    p: Seq<(Seq<char>, Seq<char>)>,
    x: (Seq<char>, Seq<char>),
    hex: Seq<char>,
)
    ensures
        palette_get(p.push(x), hex) == match palette_get(p, hex) {
            Some(k) => Some(k),
            None => if x.0 == hex {
                Some(x.1)
            } else {
                None
            },
        },
    decreases p.len(),
{
    let q = p.push(x);
    if p.len() == 0 {
        assert(q.drop_first() =~= Seq::<(Seq<char>, Seq<char>)>::empty());
        assert(q[0] == x);
    } else {
        assert(q.drop_first() =~= p.drop_first().push(x));
        assert(q[0] == p[0]);
        lemma_get_push(p.drop_first(), x, hex);
    }
}

proof fn lemma_palette_distinct(ls: Seq<Seq<char>>)
    ensures
        distinct_keys(palette_of_lines(ls)),
    decreases ls.len(),
{
    if ls.len() > 0 {
        let p = palette_of_lines(ls.drop_last());
        lemma_palette_distinct(ls.drop_last());
        match palette_entry(ls.last()) {
            Some((hex, key)) => {
                if !has_hex(p, hex) {
                    let q = p.push((hex, key));
                    assert forall|a: int, b: int| 0 <= a < b < q.len() implies (#[trigger] q[a]).0
                        != (#[trigger] q[b]).0 by {
                        assert(q[a] == p[a]);
                        if b < p.len() {
                            assert(q[b] == p[b]);
                        }
                    }
                }
            },
            None => {},
        }
    }
}

/// No colour appears twice in the palette.
pub proof fn law_palette_colours_distinct(raw: Seq<char>)
    ensures
        distinct_keys(spec_palette(raw)),
{
    lemma_palette_distinct(lines(raw));
}

/// The line `l` of `colors.toml` gives colour `hex`.
pub open spec fn names_colour(l: Seq<char>, hex: Seq<char>) -> bool {
    palette_entry(l) matches Some((h, _)) && h == hex
}

proof fn lemma_no_hex(ls: Seq<Seq<char>>, hex: Seq<char>)
    requires
        forall|m: int| 0 <= m < ls.len() ==> !names_colour(#[trigger] ls[m], hex),
    ensures
        !has_hex(palette_of_lines(ls), hex),
    decreases ls.len(),
{
    if ls.len() > 0 {
        let init = ls.drop_last();
        assert forall|m: int| 0 <= m < init.len() implies !names_colour(#[trigger] init[m], hex) by {
            assert(init[m] == ls[m]);
        }
        lemma_no_hex(init, hex);
        let p = palette_of_lines(init);
        assert(!names_colour(ls[ls.len() - 1], hex));
        match palette_entry(ls.last()) {
            Some((h, k)) => {
                if !has_hex(p, h) {
                    let q = p.push((h, k));
                    if has_hex(q, hex) {
                        let i = choose|i: int| 0 <= i < q.len() && (#[trigger] q[i]).0 == hex;
                        assert(q[i] == p[i]);
                    }
                }
            },
            None => {},
        }
    }
}

proof fn lemma_first_key(ls: Seq<Seq<char>>, n: int, hex: Seq<char>, key: Seq<char>)
    requires
        0 <= n < ls.len(),
        palette_entry(ls[n]) == Some((hex, key)),
        forall|m: int| 0 <= m < n ==> !names_colour(#[trigger] ls[m], hex),
    ensures
        palette_get(palette_of_lines(ls), hex) == Some(key),
    decreases ls.len(),
{
    let init = ls.drop_last();
    let p = palette_of_lines(init);
    if n == ls.len() - 1 {
        assert forall|m: int| 0 <= m < init.len() implies !names_colour(#[trigger] init[m], hex) by {
            assert(init[m] == ls[m]);
        }
        lemma_no_hex(init, hex);
        lemma_get_has(p, hex);
        lemma_get_push(p, (hex, key), hex);
    } else {
        assert(init[n] == ls[n]);
        assert forall|m: int| 0 <= m < n implies !names_colour(#[trigger] init[m], hex) by {
            assert(init[m] == ls[m]);
        }
        lemma_first_key(init, n, hex, key);
        match palette_entry(ls.last()) {
            Some((h, k)) => {
                if !has_hex(p, h) {
                    lemma_get_push(p, (h, k), hex);
                }
            },
            None => {},
        }
    }
}

/// A colour is traced back to the first key of `colors.toml` that gives it:
/// later keys with the same colour do not replace it.
pub proof fn law_first_key_wins(raw: Seq<char>, n: int, hex: Seq<char>, key: Seq<char>)
    requires
        0 <= n < lines(raw).len(),
        palette_entry(lines(raw)[n]) == Some((hex, key)),
        forall|m: int| 0 <= m < n ==> !names_colour(#[trigger] lines(raw)[m], hex),
    ensures
        palette_get(spec_palette(raw), hex) == Some(key),
{
    lemma_first_key(lines(raw), n, hex, key);
}

/// ASCII uppercase: `a-z` to `A-Z`, every other character unchanged.
pub open spec fn ascii_upper(c: char) -> char {
    if 'a' <= c && c <= 'z' {
        ((c as u32) - 32) as char
    } else {
        c
    }
}

/// What `str::to_ascii_uppercase` makes of `s`.
pub open spec fn ascii_upper_seq(s: Seq<char>) -> Seq<char> {
    s.map_values(|c: char| ascii_upper(c))
}

/// `c` and `d` look alike to the literal scanner.
spec fn same_class(c: char, d: char) -> bool {
    &&& is_hex_digit(c) == is_hex_digit(d)
    &&& opens_literal(c) == opens_literal(d)
    &&& alphanumeric_char(c) == alphanumeric_char(d)
    &&& (c == '_') == (d == '_')
    &&& ascii_lower(c) == ascii_lower(d)
}

proof fn lemma_case_same_class(c: char)
    ensures
        same_class(c, ascii_upper(c)),
        same_class(c, ascii_lower(c)),
{
}

proof fn lemma_hex_run_end_same(s: Seq<char>, m: Seq<char>, i: int)
    requires
        m.len() == s.len(),
        forall|k: int| 0 <= k < s.len() ==> same_class(#[trigger] s[k], m[k]),
    ensures
        hex_run_end(m, i) == hex_run_end(s, i),
    decreases s.len() - i,
{
    if 0 <= i < s.len() {
        assert(same_class(s[i], m[i]));
        lemma_hex_run_end_same(s, m, i + 1);
    }
}

proof fn lemma_literals_same(s: Seq<char>, m: Seq<char>, i: int)
    requires
        m.len() == s.len(),
        forall|k: int| 0 <= k < s.len() ==> same_class(#[trigger] s[k], m[k]),
    ensures
        literals_from(m, i) == literals_from(s, i),
    decreases s.len() - i,
{
    if 0 <= i < s.len() {
        assert(same_class(s[i], m[i]));
        if !is_hex_digit(s[i]) {
            lemma_literals_same(s, m, i + 1);
        } else {
            lemma_hex_run_end_same(s, m, i);
            lemma_hex_run_end_grows(s, i);
            lemma_hex_run_end_grows(m, i);
            let j = hex_run_end(s, i);
            lemma_literals_same(s, m, j);
            if i > 0 {
                assert(same_class(s[i - 1], m[i - 1]));
            }
            if j < s.len() {
                assert(same_class(s[j], m[j]));
            }
            assert(is_literal_run(m, i, j) == is_literal_run(s, i, j));
            if j - i >= 6 {
                assert forall|k: int| 0 <= k < 6 implies #[trigger] ascii_lower_seq(
                    m.subrange(i, i + 6),
                )[k] == ascii_lower_seq(s.subrange(i, i + 6))[k] by {
                    assert(same_class(s[i + k], m[i + k]));
                }
                assert(ascii_lower_seq(m.subrange(i, i + 6)) =~= ascii_lower_seq(
                    s.subrange(i, i + 6),
                ));
            }
        }
    }
}

/// The letter case of a line does not change the colour literals found in
/// it: `#3A6FB5` and `#3a6fb5` are the same colour, and case never turns an
/// identifier into a literal or back.
pub proof fn law_hex_literals_ignore_case(line: Seq<char>)
    ensures
        spec_hex_literals(ascii_upper_seq(line)) == spec_hex_literals(line),
        spec_hex_literals(ascii_lower_seq(line)) == spec_hex_literals(line),
{
    let up = ascii_upper_seq(line);
    let low = ascii_lower_seq(line);
    assert forall|k: int| 0 <= k < line.len() implies same_class(#[trigger] line[k], up[k]) by {
        lemma_case_same_class(line[k]);
    }
    assert forall|k: int| 0 <= k < line.len() implies same_class(#[trigger] line[k], low[k]) by {
        lemma_case_same_class(line[k]);
    }
    lemma_literals_same(line, up, 0);
    lemma_literals_same(line, low, 0);
}

proof fn lemma_hits_complete(
    hexes: Seq<Seq<char>>,
    number: int,
    p: Seq<(Seq<char>, Seq<char>)>,
    k: int,
)
    requires
        0 <= k < hexes.len(),
        palette_get(p, hexes[k]) is Some,
    ensures
        hits(hexes, number, p).contains((number, hexes[k], palette_get(p, hexes[k])->0)),
    decreases hexes.len(),
{
    let init = hexes.drop_last();
    let h = hits(init, number, p);
    let tail = match palette_get(p, hexes.last()) {
        Some(key) => seq![(number, hexes.last(), key)],
        None => seq![],
    };
    assert(hits(hexes, number, p) == h + tail);
    if k == hexes.len() - 1 {
        assert((h + tail)[h.len() as int] == tail[0]);
    } else {
        assert(init[k] == hexes[k]);
        lemma_hits_complete(init, number, p, k);
        let j = choose|j: int|
            0 <= j < h.len() && h[j] == (number, hexes[k], palette_get(p, hexes[k])->0);
        assert((h + tail)[j] == h[j]);
    }
}

proof fn lemma_hits_sound(hexes: Seq<Seq<char>>, number: int, p: Seq<(Seq<char>, Seq<char>)>, j: int)
    requires
        0 <= j < hits(hexes, number, p).len(),
    ensures
        ({
            let f = hits(hexes, number, p)[j];
            &&& f.0 == number
            &&& hexes.contains(f.1)
            &&& palette_get(p, f.1) == Some(f.2)
        }),
    decreases hexes.len(),
{
    let init = hexes.drop_last();
    let h = hits(init, number, p);
    if j < h.len() {
        lemma_hits_sound(init, number, p, j);
        let f = h[j];
        let i = choose|i: int| 0 <= i < init.len() && init[i] == f.1;
        assert(hexes[i] == init[i]);
    } else {
        assert(hexes[hexes.len() - 1] == hexes.last());
    }
}

proof fn lemma_findings_complete(
    ls: Seq<Seq<char>>,
    p: Seq<(Seq<char>, Seq<char>)>,
    n: int,
    k: int,
)
    requires
        0 <= n < ls.len(),
        !is_comment_line(ls[n]),
        0 <= k < spec_hex_literals(ls[n]).len(),
        palette_get(p, spec_hex_literals(ls[n])[k]) is Some,
    ensures
        findings_of_lines(ls, p).contains(
            (
                n + 1,
                spec_hex_literals(ls[n])[k],
                palette_get(p, spec_hex_literals(ls[n])[k])->0,
            ),
        ),
    decreases ls.len(),
{
    let init = ls.drop_last();
    let a = findings_of_lines(init, p);
    let b = line_findings(ls.last(), ls.len() as int, p);
    assert(findings_of_lines(ls, p) == a + b);
    let want = (
        n + 1,
        spec_hex_literals(ls[n])[k],
        palette_get(p, spec_hex_literals(ls[n])[k])->0,
    );
    if n == ls.len() - 1 {
        lemma_hits_complete(spec_hex_literals(ls[n]), n + 1, p, k);
        let j = choose|j: int| 0 <= j < b.len() && b[j] == want;
        assert((a + b)[a.len() + j] == b[j]);
    } else {
        assert(init[n] == ls[n]);
        lemma_findings_complete(init, p, n, k);
        let j = choose|j: int| 0 <= j < a.len() && a[j] == want;
        assert((a + b)[j] == a[j]);
    }
}

proof fn lemma_findings_sound(ls: Seq<Seq<char>>, p: Seq<(Seq<char>, Seq<char>)>, j: int)
    requires
        0 <= j < findings_of_lines(ls, p).len(),
    ensures
        ({
            let f = findings_of_lines(ls, p)[j];
            &&& 1 <= f.0 <= ls.len()
            &&& !is_comment_line(ls[f.0 - 1])
            &&& spec_hex_literals(ls[f.0 - 1]).contains(f.1)
            &&& palette_get(p, f.1) == Some(f.2)
        }),
    decreases ls.len(),
{
    let init = ls.drop_last();
    let a = findings_of_lines(init, p);
    let b = line_findings(ls.last(), ls.len() as int, p);
    assert(findings_of_lines(ls, p) == a + b);
    if j < a.len() {
        lemma_findings_sound(init, p, j);
        assert(init[a[j].0 - 1] == ls[a[j].0 - 1]);
    } else {
        assert(ls.last() == ls[ls.len() - 1]);
        if is_comment_line(ls.last()) {
            assert(b.len() == 0);
        } else {
            lemma_hits_sound(spec_hex_literals(ls.last()), ls.len() as int, p, j - a.len());
        }
    }
}

/// The doctor reports every colour literal of a line that is not a comment
/// and that the palette knows, each with its line number (from 1) and the
/// key it duplicates: two known literals on one line give two findings.
/// And every finding is such a literal.
pub proof fn law_every_known_literal_is_reported(
    contents: Seq<char>,
    p: Seq<(Seq<char>, Seq<char>)>,
)
    ensures
        forall|n: int, k: int|
            0 <= n < lines(contents).len() && !is_comment_line(lines(contents)[n]) && 0 <= k
                < spec_hex_literals(lines(contents)[n]).len() && palette_get(
                p,
                #[trigger] spec_hex_literals(lines(contents)[n])[k],
            ) is Some ==> spec_findings(contents, p).contains(
                (
                    n + 1,
                    spec_hex_literals(lines(contents)[n])[k],
                    palette_get(p, spec_hex_literals(lines(contents)[n])[k])->0,
                ),
            ),
        forall|j: int|
            0 <= j < spec_findings(contents, p).len() ==> {
                let f = #[trigger] spec_findings(contents, p)[j];
                &&& 1 <= f.0 <= lines(contents).len()
                &&& !is_comment_line(lines(contents)[f.0 - 1])
                &&& spec_hex_literals(lines(contents)[f.0 - 1]).contains(f.1)
                &&& palette_get(p, f.1) == Some(f.2)
            },
{
    let ls = lines(contents);
    assert forall|n: int, k: int|
        0 <= n < ls.len() && !is_comment_line(ls[n]) && 0 <= k < spec_hex_literals(ls[n]).len()
            && palette_get(p, #[trigger] spec_hex_literals(ls[n])[k]) is Some implies spec_findings(
        contents,
        p,
    ).contains(
        (n + 1, spec_hex_literals(ls[n])[k], palette_get(p, spec_hex_literals(ls[n])[k])->0),
    ) by {
        lemma_findings_complete(ls, p, n, k);
    }
    assert forall|j: int| 0 <= j < spec_findings(contents, p).len() implies {
        let f = #[trigger] spec_findings(contents, p)[j];
        &&& 1 <= f.0 <= ls.len()
        &&& !is_comment_line(ls[f.0 - 1])
        &&& spec_hex_literals(ls[f.0 - 1]).contains(f.1)
        &&& palette_get(p, f.1) == Some(f.2)
    } by {
        lemma_findings_sound(ls, p, j);
    }
}

} // verus!
