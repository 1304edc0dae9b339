//! Theme names and the locations Omarchy keeps things at.
//!
//! Paths are Unix paths held as strings; the environment and the file
//! system are read by the caller, which hands the values in.
use vstd::prelude::*;
use crate::text::{
    chars_of, eq_chars, find, find_char, lemma_find_bounds, lemma_lead_len, lemma_trail_len, lemma_trim_by_idempotent,
    lemma_trim_by_index, lowercase_chars, push_char, push_str_chars, split, split_chars,
    string_of, sub_chars, to_lowercase, trim, trim_by, trim_chars, views,
};

verus! {

// ---------------------------------------------------------------------------
// slugify
// ---------------------------------------------------------------------------

/// Whether a `<...>` tag is still open after reading `s`.
pub open spec fn in_tag_after(s: Seq<char>) -> bool
    decreases s.len(),
{
    if s.len() == 0 {
        false
    } else if s.last() == '<' {
        true
    } else if s.last() == '>' {
        false
    } else {
        in_tag_after(s.drop_last())
    }
}

/// What one character of a theme name contributes to its slug.
pub open spec fn slug_piece(c: char, in_tag: bool) -> Seq<char> {
    if c == '<' || c == '>' || in_tag {
        seq![]
    } else if c == ' ' || c == '\t' || c == '_' {
        seq!['-']
    } else {
        lowercase_chars(c)
    }
}

/// The slug before its leading and trailing dashes are removed.
pub open spec fn slug_raw(s: Seq<char>) -> Seq<char>
    decreases s.len(),
{
    if s.len() == 0 {
        seq![]
    } else {
        slug_raw(s.drop_last()) + slug_piece(s.last(), in_tag_after(s.drop_last()))
    }
}

pub open spec fn dash() -> spec_fn(char) -> bool {
    |c: char| c == '-'
}

/// The slug of a theme name: `<...>` tags dropped, lowercased, spaces, tabs
/// and underscores turned into dashes, outer dashes removed.
pub open spec fn spec_slugify(name: Seq<char>) -> Seq<char> {
    trim_by(slug_raw(name), dash())
}

/// Normalize a theme name the way `omarchy-theme-set` does: drop `<...>`
/// tags, lowercase, spaces to dashes. "Gojo Latte" and "gojo-latte" both
/// resolve.
pub fn slugify(name: &str) -> (out: String)
    ensures
        out@ == spec_slugify(name@),
        out@.len() > 0 ==> out@[0] != '-' && out@.last() != '-',
{
    let chars = chars_of(name);
    let mut raw: Vec<char> = Vec::new();
    let mut in_tag = false;
    let mut i: usize = 0;
    while i < chars.len()
        invariant
            i <= chars.len(),
            chars@ == name@,
            raw@ == slug_raw(chars@.take(i as int)),
            in_tag == in_tag_after(chars@.take(i as int)),
        decreases chars.len() - i,
    {
        let c = chars[i];
        let ghost prefix = chars@.take(i as int);
        let ghost next = chars@.take(i + 1);
        assert(next.drop_last() =~= prefix);
        assert(next.last() == c);
        if c == '<' {
            in_tag = true;
        } else if c == '>' {
            in_tag = false;
        } else if in_tag {
        } else if c == ' ' || c == '\t' || c == '_' {
            raw.push('-');
        } else {
            let low = to_lowercase(c);
            let mut k: usize = 0;
            let ghost before = raw@;
            while k < low.len()
                invariant
                    k <= low.len(),
                    raw@ == before + low@.take(k as int),
                decreases low.len() - k,
            {
                raw.push(low[k]);
                k += 1;
                assert(raw@ =~= before + low@.take(k as int));
            }
            assert(low@.take(low.len() as int) =~= low@);
        }
        i += 1;
        assert(raw@ =~= slug_raw(next));
    }
    assert(chars@.take(chars.len() as int) =~= chars@);

    // trim_matches('-')
    let mut a: usize = 0;
    while a < raw.len() && raw[a] == '-'
        invariant
            a <= raw.len(),
            forall|k: int| 0 <= k < a ==> (dash())(#[trigger] raw@[k]),
        decreases raw.len() - a,
    {
        a += 1;
    }
    proof {
        lemma_lead_len(raw@, dash(), a as int);
    }
    let start = sub_chars(&raw, a, raw.len());
    let mut b: usize = start.len();
    while b > 0 && start[b - 1] == '-'
        invariant
            b <= start.len(),
            forall|k: int| b <= k < start.len() ==> (dash())(#[trigger] start@[k]),
        decreases b,
    {
        b -= 1;
    }
    proof {
        lemma_trail_len(start@, dash(), b as int);
    }
    let trimmed = sub_chars(&start, 0, b);
    proof {
        if trimmed@.len() > 0 {
            assert(trimmed@[0] == start@[0]);
            assert(start@[0] == raw@[a as int]);
            assert(trimmed@.last() == start@[b - 1]);
        }
    }
    string_of(&trimmed)
}

/// Every character of `s` is ASCII.
pub open spec fn is_ascii_text(s: Seq<char>) -> bool {
    forall|i: int| 0 <= i < s.len() ==> #[trigger] s[i] <= '\x7f'
}

/// A character the slug of an ASCII name can hold: ASCII, not an uppercase
/// letter, and none of `<`, `>`, space, tab and `_`.
pub open spec fn slug_char(c: char) -> bool {
    &&& c <= '\x7f'
    &&& c != '<' && c != '>' && c != ' ' && c != '\t' && c != '_'
    &&& !('A' <= c && c <= 'Z')
}

proof fn lemma_slug_raw_chars(s: Seq<char>)
    requires
        is_ascii_text(s),
    ensures
        forall|k: int| 0 <= k < slug_raw(s).len() ==> slug_char(#[trigger] slug_raw(s)[k]),
    decreases s.len(),
{
    if s.len() > 0 {
        let init = s.drop_last();
        assert forall|i: int| 0 <= i < init.len() implies #[trigger] init[i] <= '\x7f' by {
            assert(init[i] == s[i]);
        }
        lemma_slug_raw_chars(init);
        let c = s.last();
        assert(c == s[s.len() - 1]);
        let a = slug_raw(init);
        let b = slug_piece(c, in_tag_after(init));
        assert forall|k: int| 0 <= k < b.len() implies slug_char(#[trigger] b[k]) by {}
        let ab = a + b;
        assert(slug_raw(s) == ab);
        assert forall|k: int| 0 <= k < ab.len() implies slug_char(#[trigger] ab[k]) by {
            if k < a.len() {
                assert(ab[k] == a[k]);
            } else {
                assert(ab[k] == b[k - a.len()]);
            }
        }
    }
}

proof fn lemma_slug_raw_fixed(t: Seq<char>)
    requires
        forall|k: int| 0 <= k < t.len() ==> slug_char(#[trigger] t[k]),
    ensures
        slug_raw(t) == t,
        !in_tag_after(t),
    decreases t.len(),
{
    if t.len() > 0 {
        let init = t.drop_last();
        assert forall|k: int| 0 <= k < init.len() implies slug_char(#[trigger] init[k]) by {
            assert(init[k] == t[k]);
        }
        lemma_slug_raw_fixed(init);
        let c = t.last();
        assert(slug_char(t[t.len() - 1]));
        assert(slug_piece(c, false) == seq![c]);
        assert(slug_raw(t) =~= t);
    }
}

/// A slug is its own slug, so a theme is found by its display name and by
/// its slug alike: "Gojo Latte" and "gojo-latte" both resolve. Stated of
/// ASCII names; beyond ASCII the lowercase mapping is std's table.
pub proof fn law_slugify_idempotent(name: Seq<char>)
    requires
        is_ascii_text(name),
    ensures
        spec_slugify(spec_slugify(name)) == spec_slugify(name),
{
    let r = slug_raw(name);
    lemma_slug_raw_chars(name);
    let t = trim_by(r, dash());
    assert forall|k: int| 0 <= k < t.len() implies slug_char(#[trigger] t[k]) by {
        lemma_trim_by_index(r, dash(), k);
    }
    lemma_slug_raw_fixed(t);
    lemma_trim_by_idempotent(r, dash());
}

/// Whether a tag is open after `c`, when `open` said so before it.
pub open spec fn tag_after(c: char, open: bool) -> bool {
    if c == '<' {
        true
    } else if c == '>' {
        false
    } else {
        open
    }
}

/// What `y` adds to a slug read so far, starting with a tag open or not, and
/// whether a tag is open after it.
pub open spec fn slug_from(y: Seq<char>, open: bool) -> (Seq<char>, bool)
    decreases y.len(),
{
    if y.len() == 0 {
        (seq![], open)
    } else {
        let (out, tag) = slug_from(y.drop_last(), open);
        (out + slug_piece(y.last(), tag), tag_after(y.last(), tag))
    }
}

proof fn lemma_slug_append(x: Seq<char>, y: Seq<char>)
    ensures
        slug_raw(x + y) == slug_raw(x) + slug_from(y, in_tag_after(x)).0,
        in_tag_after(x + y) == slug_from(y, in_tag_after(x)).1,
    decreases y.len(),
{
    if y.len() == 0 {
        assert(x + y =~= x);
    } else {
        lemma_slug_append(x, y.drop_last());
        assert((x + y).drop_last() =~= x + y.drop_last());
        assert((x + y).last() == y.last());
    }
}

proof fn lemma_inside_tag(t: Seq<char>)
    requires
        forall|k: int| 0 <= k < t.len() ==> #[trigger] t[k] != '>',
    ensures
        slug_from(t, true) == (Seq::<char>::empty(), true),
    decreases t.len(),
{
    if t.len() > 0 {
        assert forall|k: int| 0 <= k < t.len() - 1 implies #[trigger] t.drop_last()[k] != '>' by {
            assert(t.drop_last()[k] == t[k]);
        }
        lemma_inside_tag(t.drop_last());
        assert(t.last() == t[t.len() - 1]);
    }
}

proof fn lemma_no_tag(a: Seq<char>)
    requires
        forall|k: int| 0 <= k < a.len() ==> #[trigger] a[k] != '<' && a[k] != '>',
    ensures
        !in_tag_after(a),
    decreases a.len(),
{
    if a.len() > 0 {
        assert forall|k: int| 0 <= k < a.len() - 1 implies #[trigger] a.drop_last()[k] != '<'
            && a.drop_last()[k] != '>' by {
            assert(a.drop_last()[k] == a[k]);
        }
        lemma_no_tag(a.drop_last());
        assert(a.last() == a[a.len() - 1]);
    }
}

/// A `<...>` tag and everything inside it drop out of the slug.
pub proof fn law_tags_are_dropped(a: Seq<char>, t: Seq<char>, b: Seq<char>)
    requires
        forall|k: int| 0 <= k < a.len() ==> #[trigger] a[k] != '<' && a[k] != '>',
        forall|k: int| 0 <= k < t.len() ==> #[trigger] t[k] != '>',
    ensures
        spec_slugify(a + seq!['<'] + t + seq!['>'] + b) == spec_slugify(a + b),
{
    lemma_no_tag(a);
    let p = a + seq!['<'];
    assert(p.drop_last() =~= a);
    assert(slug_raw(p) == slug_raw(a) + slug_piece('<', false));
    assert(slug_raw(p) =~= slug_raw(a));
    assert(in_tag_after(p));
    let q = p + t;
    lemma_slug_append(p, t);
    lemma_inside_tag(t);
    assert(slug_raw(q) =~= slug_raw(a));
    let r = q + seq!['>'];
    assert(r.drop_last() =~= q);
    assert(slug_raw(r) =~= slug_raw(a));
    assert(!in_tag_after(r));
    lemma_slug_append(r, b);
    lemma_slug_append(a, b);
    assert(slug_raw(r + b) == slug_raw(a + b));
}

/// A theme is found by its display name and by its slug alike: both give
/// the same candidate directories. Stated of ASCII names, as the slug's
/// idempotence is.
pub proof fn law_theme_found_by_slug(name: Seq<char>, omarchy_config: Seq<char>)
    requires
        is_ascii_text(name),
    ensures
        spec_user_theme_dir(omarchy_config, spec_slugify(spec_slugify(name))) == spec_user_theme_dir(
            omarchy_config,
            spec_slugify(name),
        ),
{
    law_slugify_idempotent(name);
}

// ---------------------------------------------------------------------------
// Paths as strings
// ---------------------------------------------------------------------------

/// `base` joined with `rel` the way `PathBuf::push` does on Unix: an
/// absolute `rel` replaces `base`; otherwise a `/` separates the two unless
/// `base` is empty or already ends with one.
pub open spec fn spec_join(base: Seq<char>, rel: Seq<char>) -> Seq<char> {
    if rel.len() > 0 && rel[0] == '/' {
        rel
    } else if base.len() == 0 || base.last() == '/' {
        base + rel
    } else {
        base + seq!['/'] + rel
    }
}

pub fn join_path(base: &str, rel: &str) -> (out: String)
    ensures
        out@ == spec_join(base@, rel@),
{
    let b = chars_of(base);
    let r = chars_of(rel);
    if r.len() > 0 && r[0] == '/' {
        return string_of(&r);
    }
    let mut out = string_of(&b);
    if !(b.len() == 0 || b[b.len() - 1] == '/') {
        push_char(&mut out, '/');
    }
    push_str_chars(&mut out, &r);
    out
}

/// `$HOME`, the anchor for every other path; `value` is the variable when
/// it is set.
pub fn home(value: Option<&str>) -> (r: Result<String, PathError>)
    ensures
        match value {
            Some(v) => r matches Ok(h) && h@ == v@,
            None => r matches Err(PathError::HomeNotSet),
        },
{
    match value {
        Some(v) => Ok(string_of(&chars_of(v))),
        None => Err(PathError::HomeNotSet),
    }
}

/// `$XDG_CONFIG_HOME` when it is set to an absolute path, `~/.config`
/// otherwise; `$HOME` is needed only then.
pub fn config_home(xdg_config_home: Option<&str>, home: Option<&str>) -> (r: Result<
    String,
    PathError,
>)
    ensures
        match xdg_config_home {
            Some(dir) if dir@.len() > 0 && dir@[0] == '/' => r matches Ok(c) && c@ == dir@,
            _ => match home {
                Some(h) => r matches Ok(c) && c@ == spec_join(h@, ".config"@),
                None => r matches Err(PathError::HomeNotSet),
            },
        },
{
    if let Some(dir) = xdg_config_home {
        let d = chars_of(dir);
        if d.len() > 0 && d[0] == '/' {
            return Ok(string_of(&d));
        }
    }
    match home {
        Some(h) => Ok(join_path(h, ".config")),
        None => Err(PathError::HomeNotSet),
    }
}

/// `<config home>/omarchy`.
pub fn omarchy_config(config_home: &str) -> (out: String)
    ensures
        out@ == spec_join(config_home@, "omarchy"@),
{
    join_path(config_home, "omarchy")
}

/// Where Omarchy keeps the theme it resolved for the running session.
pub fn current_state(home: &str) -> (out: String)
    ensures
        out@ == spec_join(home@, ".local/state/omarchy/current"@),
{
    join_path(home, ".local/state/omarchy/current")
}

/// Root of the Omarchy package: `$OMARCHY_PATH` when set.
pub fn omarchy_share(omarchy_path: Option<&str>) -> (out: String)
    ensures
        out@ == (match omarchy_path {
            Some(p) => p@,
            None => "/usr/share/omarchy"@,
        }),
{
    match omarchy_path {
        Some(p) => string_of(&chars_of(p)),
        None => string_of(&chars_of("/usr/share/omarchy")),
    }
}

/// The two places a theme may live: under the user's configuration, then
/// in the package.
pub struct ThemeCandidates {
    pub slug: String,
    pub user: String,
    pub stock: String,
}

pub open spec fn spec_user_theme_dir(omarchy_config: Seq<char>, slug: Seq<char>) -> Seq<char> {
    spec_join(spec_join(omarchy_config, "themes"@), slug)
}

pub fn theme_candidates(name: &str, omarchy_config: &str, omarchy_share: &str) -> (c:
    ThemeCandidates)
    ensures
        c.slug@ == spec_slugify(name@),
        c.user@ == spec_user_theme_dir(omarchy_config@, spec_slugify(name@)),
        c.stock@ == spec_user_theme_dir(omarchy_share@, spec_slugify(name@)),
{
    let slug = slugify(name);
    let user = join_path(&join_path(omarchy_config, "themes"), &slug);
    let stock = join_path(&join_path(omarchy_share, "themes"), &slug);
    ThemeCandidates { slug, user, stock }
}

/// Why a path could not be resolved.
pub enum PathError {
    /// `$HOME` is not set.
    HomeNotSet,
    /// No theme of this slug exists in either place.
    UnknownTheme { slug: String },
    /// The state file naming the current theme holds only whitespace.
    EmptyThemeName,
}

/// User themes win over the ones shipped by the package, same as
/// `omarchy-theme-dir`. `user_is_dir` and `stock_is_dir` say whether the two
/// candidates of `theme_candidates` are directories.
pub fn theme_dir(
    name: &str,
    omarchy_config: &str,
    omarchy_share: &str,
    user_is_dir: bool,
    stock_is_dir: bool,
) -> (r: Result<String, PathError>)
    ensures
        user_is_dir ==> (r matches Ok(p) && p@ == spec_user_theme_dir(
            omarchy_config@,
            spec_slugify(name@),
        )),
        !user_is_dir && stock_is_dir ==> (r matches Ok(p) && p@ == spec_user_theme_dir(
            omarchy_share@,
            spec_slugify(name@),
        )),
        !user_is_dir && !stock_is_dir ==> (r matches Err(PathError::UnknownTheme { slug })
            && slug@ == spec_slugify(name@)),
{
    let c = theme_candidates(name, omarchy_config, omarchy_share);
    if user_is_dir {
        Ok(c.user)
    } else if stock_is_dir {
        Ok(c.stock)
    } else {
        Err(PathError::UnknownTheme { slug: c.slug })
    }
}

/// Name of the theme currently applied, from the contents of Omarchy's
/// `theme.name` state file.
pub fn current_theme_name(contents: &str) -> (r: Result<String, PathError>)
    ensures
        trim(contents@).len() > 0 ==> (r matches Ok(n) && n@ == trim(contents@)),
        trim(contents@).len() == 0 ==> r matches Err(PathError::EmptyThemeName),
{
    let t = trim_chars(&chars_of(contents));
    if t.len() == 0 {
        Err(PathError::EmptyThemeName)
    } else {
        Ok(string_of(&t))
    }
}

// ---------------------------------------------------------------------------
// Components
// ---------------------------------------------------------------------------

/// A piece between separators names a component unless it is empty or `.`.
pub open spec fn is_component(p: Seq<char>) -> bool {
    p.len() > 0 && p != seq!['.']
}

pub open spec fn keep_components(ps: Seq<Seq<char>>) -> Seq<Seq<char>>
    decreases ps.len(),
{
    if ps.len() == 0 {
        seq![]
    } else {
        keep_components(ps.drop_last()) + if is_component(ps.last()) {
            seq![ps.last()]
        } else {
            seq![]
        }
    }
}

/// The components of a Unix path, as `Path::components` yields them: a
/// leading `/` gives the root component `/`, a leading `.` the current
/// directory `.`; repeated separators, inner `.` and a trailing separator
/// give nothing.
pub open spec fn components(s: Seq<char>) -> Seq<Seq<char>> {
    let ps = split(s, '/');
    if s.len() > 0 && s[0] == '/' {
        seq![seq!['/']] + keep_components(ps.drop_first())
    } else if ps.len() > 0 && ps[0] == seq!['.'] {
        seq![seq!['.']] + keep_components(ps.drop_first())
    } else {
        keep_components(ps)
    }
}

/// `Path::starts_with`: the components of `base` begin those of `path`.
pub open spec fn path_starts_with(path: Seq<char>, base: Seq<char>) -> bool {
    components(base).is_prefix_of(components(path))
}

/// The final component of `path` when it names a file or directory (not the
/// root, `.` or `..`), as `Path::file_name` gives it.
pub open spec fn spec_file_name(path: Seq<char>) -> Option<Seq<char>> {
    let cs = components(path);
    if cs.len() > 0 && cs.last() != seq!['/'] && cs.last() != seq!['.'] && cs.last() != seq![
        '.',
        '.',
    ] {
        Some(cs.last())
    } else {
        None
    }
}

fn single(c: char) -> (v: Vec<char>)
    ensures
        v@ == seq![c],
{
    let mut v: Vec<char> = Vec::new();
    v.push(c);
    assert(v@ =~= seq![c]);
    v
}

fn keep_components_exec(ps: &Vec<Vec<char>>, from: usize) -> (out: Vec<Vec<char>>)
    requires
        from <= ps.len(),
    ensures
        views(out@) == keep_components(views(ps@).skip(from as int)),
{
    let mut out: Vec<Vec<char>> = Vec::new();
    let mut i: usize = from;
    let ghost all = views(ps@).skip(from as int);
    assert(all.take(0) =~= Seq::<Seq<char>>::empty());
    while i < ps.len()
        invariant
            from <= i <= ps.len(),
            all == views(ps@).skip(from as int),
            views(out@) == keep_components(all.take(i - from)),
        decreases ps.len() - i,
    {
        let ghost next = all.take(i + 1 - from);
        assert(next.drop_last() =~= all.take(i - from));
        assert(next.last() == ps@[i as int]@);
        let p = &ps[i];
        let dot: Vec<char> = vec!['.'];
        if p.len() > 0 && !eq_chars(p, &dot) {
            assert(dot@ =~= seq!['.']);
            let ghost before = views(out@);
            let piece = sub_chars(p, 0, p.len());
            assert(piece@ =~= p@);
            out.push(piece);
            assert(views(out@) =~= before + seq![ps@[i as int]@]);
        } else {
            assert(dot@ =~= seq!['.']);
        }
        i += 1;
    }
    assert(all.take(ps.len() - from) =~= all);
    out
}

/// `Path::components` of a Unix path held as a string.
pub fn components_of(path: &str) -> (out: Vec<Vec<char>>)
    ensures
        views(out@) == components(path@),
{
    let s = chars_of(path);
    let ps = split_chars(&s, '/');
    let dot: Vec<char> = vec!['.'];
    assert(dot@ =~= seq!['.']);
    if s.len() > 0 && s[0] == '/' {
        let mut out: Vec<Vec<char>> = Vec::new();
        out.push(single('/'));
        let rest = keep_components_exec(&ps, 1);
        let ghost r = views(rest@);
        assert(views(out@) =~= seq![seq!['/']] + r.take(0));
        let mut i: usize = 0;
        assert(views(ps@).skip(1) =~= views(ps@).drop_first());
        while i < rest.len()
            invariant
                i <= rest.len(),
                views(out@) == seq![seq!['/']] + r.take(i as int),
                r == views(rest@),
            decreases rest.len() - i,
        {
            let piece = sub_chars(&rest[i], 0, rest[i].len());
            assert(piece@ =~= rest@[i as int]@);
            assert(r[i as int] == rest@[i as int]@);
            let ghost before = views(out@);
            out.push(piece);
            assert(views(out@) =~= before.push(piece@));
            i += 1;
            assert(views(out@) =~= seq![seq!['/']] + r.take(i as int));
        }
        assert(r.take(rest.len() as int) =~= r);
        out
    } else if eq_chars(&ps[0], &dot) {
        let mut out: Vec<Vec<char>> = Vec::new();
        out.push(single('.'));
        let rest = keep_components_exec(&ps, 1);
        let ghost r = views(rest@);
        assert(views(out@) =~= seq![seq!['.']] + r.take(0));
        let mut i: usize = 0;
        assert(views(ps@).skip(1) =~= views(ps@).drop_first());
        while i < rest.len()
            invariant
                i <= rest.len(),
                views(out@) == seq![seq!['.']] + r.take(i as int),
                r == views(rest@),
            decreases rest.len() - i,
        {
            let piece = sub_chars(&rest[i], 0, rest[i].len());
            assert(piece@ =~= rest@[i as int]@);
            assert(r[i as int] == rest@[i as int]@);
            let ghost before = views(out@);
            out.push(piece);
            assert(views(out@) =~= before.push(piece@));
            i += 1;
            assert(views(out@) =~= seq![seq!['.']] + r.take(i as int));
        }
        assert(r.take(rest.len() as int) =~= r);
        out
    } else {
        assert(views(ps@).skip(0) =~= views(ps@));
        keep_components_exec(&ps, 0)
    }
}

/// Whether the components of `base` begin those of `path`.
fn components_prefix(base: &Vec<Vec<char>>, path: &Vec<Vec<char>>) -> (b: bool)
    ensures
        b == views(base@).is_prefix_of(views(path@)),
{
    if base.len() > path.len() {
        return false;
    }
    let mut i: usize = 0;
    while i < base.len()
        invariant
            base.len() <= path.len(),
            i <= base.len(),
            forall|k: int| 0 <= k < i ==> views(base@)[k] == views(path@)[k],
        decreases base.len() - i,
    {
        if !eq_chars(&base[i], &path[i]) {
            assert(views(base@)[i as int] != views(path@)[i as int]);
            return false;
        }
        i += 1;
    }
    true
}

/// Whether `path` lies within `base`, component by component.
pub fn starts_with_path(path: &str, base: &str) -> (b: bool)
    ensures
        b == path_starts_with(path@, base@),
{
    let p = components_of(path);
    let q = components_of(base);
    components_prefix(&q, &p)
}

/// Whether two paths have the same components.
pub fn same_path(a: &str, b: &str) -> (r: bool)
    ensures
        r == (components(a@) == components(b@)),
{
    let p = components_of(a);
    let q = components_of(b);
    if p.len() != q.len() {
        return false;
    }
    let r = components_prefix(&p, &q);
    if r {
        assert(views(p@) =~= views(q@));
    }
    r
}

/// `Path::file_name` of a Unix path held as a string.
pub fn file_name(path: &str) -> (r: Option<String>)
    ensures
        match r {
            Some(n) => spec_file_name(path@) == Some(n@),
            None => spec_file_name(path@) is None,
        },
{
    let cs = components_of(path);
    if cs.len() == 0 {
        return None;
    }
    let last = &cs[cs.len() - 1];
    assert(views(cs@).last() == last@);
    let root: Vec<char> = vec!['/'];
    let dot: Vec<char> = vec!['.'];
    let dotdot: Vec<char> = vec!['.', '.'];
    assert(root@ =~= seq!['/']);
    assert(dot@ =~= seq!['.']);
    assert(dotdot@ =~= seq!['.', '.']);
    if eq_chars(last, &root) || eq_chars(last, &dot) || eq_chars(last, &dotdot) {
        None
    } else {
        Some(string_of(last))
    }
}

// ---------------------------------------------------------------------------
// What is left of a path after a prefix
// ---------------------------------------------------------------------------

/// A piece between separators that names nothing: empty, or `.`, which
/// `Path::components` passes over except at the start of a path.
pub open spec fn is_empty_piece(p: Seq<char>) -> bool {
    p.len() == 0 || p == seq!['.']
}

/// `r` without its leading pieces that name nothing and the separators after
/// them.
pub open spec fn skip_empty_pieces(r: Seq<char>) -> Seq<char>
    decreases r.len(),
{
    if r.len() == 0 {
        r
    } else {
        let i = find(r, '/');
        if !is_empty_piece(r.take(i)) {
            r
        } else if i < r.len() {
            proof {
                lemma_find_bounds(r, '/', 0);
            }
            skip_empty_pieces(r.skip(i + 1))
        } else {
            seq![]
        }
    }
}

/// What is left of `r` after `m` components are read from its front: each
/// read passes over the pieces that name nothing, then takes one piece and
/// the separator after it.
pub open spec fn body_after(r: Seq<char>, m: nat) -> Seq<char>
    decreases m,
{
    if m == 0 {
        r
    } else {
        let r1 = skip_empty_pieces(r);
        let i = find(r1, '/');
        body_after(
            if i < r1.len() {
                r1.skip(i + 1)
            } else {
                seq![]
            },
            (m - 1) as nat,
        )
    }
}

/// Index of the last `c` in `s`, or -1 when there is none.
pub open spec fn rfind(s: Seq<char>, c: char) -> int
    decreases s.len(),
{
    if s.len() == 0 {
        -1
    } else if s.last() == c {
        s.len() - 1
    } else {
        rfind(s.drop_last(), c)
    }
}

pub proof fn lemma_rfind_bounds(s: Seq<char>, c: char)
    ensures
        -1 <= rfind(s, c) < s.len(),
        rfind(s, c) >= 0 ==> s[rfind(s, c)] == c,
        forall|k: int| rfind(s, c) < k < s.len() ==> #[trigger] s[k] != c,
    decreases s.len(),
{
    if s.len() > 0 && s.last() != c {
        lemma_rfind_bounds(s.drop_last(), c);
        assert forall|k: int| rfind(s, c) < k < s.len() implies #[trigger] s[k] != c by {
            if k < s.len() - 1 {
                assert(s[k] == s.drop_last()[k]);
            }
        }
    }
}

/// `r` without its trailing pieces that name nothing and the separators
/// before them, never cutting into the first `floor` characters.
pub open spec fn trim_back(r: Seq<char>, floor: int) -> Seq<char>
    decreases r.len(),
{
    if floor < 0 || r.len() <= floor {
        r
    } else {
        let body = r.skip(floor);
        let j = rfind(body, '/');
        let comp = body.skip(j + 1);
        let cut = comp.len() + if j >= 0 {
            1int
        } else {
            0int
        };
        if is_empty_piece(comp) && cut > 0 {
            proof {
                lemma_rfind_bounds(body, '/');
            }
            trim_back(r.take(r.len() - cut), floor)
        } else {
            r
        }
    }
}

/// The length of what a path starts with before its body: the root `/`, or
/// a leading `.` standing alone.
pub open spec fn start_len(s: Seq<char>) -> int {
    if s.len() > 0 && (s[0] == '/' || (s[0] == '.' && (s.len() == 1 || s[1] == '/'))) {
        1
    } else {
        0
    }
}

/// What `Path::strip_prefix` leaves of `s` after its first `n` components,
/// as `Path::display` shows it: the rest of the text as written, without the
/// pieces that name nothing at either end.
pub open spec fn strip_rest(s: Seq<char>, n: nat) -> Seq<char> {
    if n == 0 {
        trim_back(s, start_len(s))
    } else {
        trim_back(skip_empty_pieces(body_after(s.skip(start_len(s)), (n - start_len(s)) as nat)), 0)
    }
}

/// What a path relative to `$HOME` looks like as `~/...`.
pub open spec fn spec_tilde(path: Seq<char>, home: Option<Seq<char>>) -> Seq<char> {
    match home {
        Some(h) => if path_starts_with(path, h) {
            "~/"@ + strip_rest(path, components(h).len())
        } else {
            path
        },
        None => path,
    }
}

fn skip_empty_pieces_exec(r: Vec<char>) -> (out: Vec<char>)
    ensures
        out@ == skip_empty_pieces(r@),
    decreases r.len(),
{
    if r.len() == 0 {
        return r;
    }
    let i = find_char(&r, '/');
    let empty = i == 0 || (i == 1 && r[0] == '.');
    proof {
        if i == 1 && r[0] == '.' {
            assert(r@.take(1) =~= seq!['.']);
        }
        if r@.take(i as int) == seq!['.'] {
            assert(r@.take(i as int).len() == 1);
            assert(i == 1);
            assert(r@.take(1)[0] == r@[0]);
        }
        if i == 0 {
            assert(r@.take(0).len() == 0);
        }
    }
    assert(empty == is_empty_piece(r@.take(i as int)));
    if !empty {
        r
    } else if i < r.len() {
        let rest = sub_chars(&r, i + 1, r.len());
        assert(rest@ =~= r@.skip(i + 1));
        skip_empty_pieces_exec(rest)
    } else {
        let out: Vec<char> = Vec::new();
        assert(out@ =~= Seq::<char>::empty());
        out
    }
}

fn body_after_exec(r: Vec<char>, m: usize) -> (out: Vec<char>)
    ensures
        out@ == body_after(r@, m as nat),
    decreases m,
{
    if m == 0 {
        return r;
    }
    let r1 = skip_empty_pieces_exec(r);
    let i = find_char(&r1, '/');
    let next = if i < r1.len() {
        let n = sub_chars(&r1, i + 1, r1.len());
        assert(n@ =~= r1@.skip(i + 1));
        n
    } else {
        let n: Vec<char> = Vec::new();
        assert(n@ =~= Seq::<char>::empty());
        n
    };
    body_after_exec(next, m - 1)
}

fn rfind_exec(v: &Vec<char>, c: char) -> (j: Option<usize>)
    ensures
        match j {
            Some(j) => rfind(v@, c) == j,
            None => rfind(v@, c) == -1,
        },
{
    let mut k: usize = v.len();
    assert(v@.take(v.len() as int) =~= v@);
    while k > 0
        invariant
            k <= v.len(),
            rfind(v@, c) == rfind(v@.take(k as int), c),
        decreases k,
    {
        let ghost t = v@.take(k as int);
        assert(t.last() == v@[k - 1]);
        if v[k - 1] == c {
            return Some(k - 1);
        }
        assert(t.drop_last() =~= v@.take(k - 1));
        k -= 1;
    }
    None
}

fn trim_back_exec(r: Vec<char>, floor: usize) -> (out: Vec<char>)
    ensures
        out@ == trim_back(r@, floor as int),
    decreases r.len(),
{
    if r.len() <= floor {
        return r;
    }
    let body = sub_chars(&r, floor, r.len());
    assert(body@ =~= r@.skip(floor as int));
    proof {
        lemma_rfind_bounds(body@, '/');
    }
    let j = rfind_exec(&body, '/');
    let start: usize = match j {
        Some(j) => j + 1,
        None => 0,
    };
    let comp = sub_chars(&body, start, body.len());
    assert(comp@ =~= body@.skip(rfind(body@, '/') + 1));
    let cut: usize = comp.len() + match j {
        Some(_) => 1,
        None => 0,
    };
    let empty = comp.len() == 0 || (comp.len() == 1 && comp[0] == '.');
    proof {
        if comp.len() == 1 && comp[0] == '.' {
            assert(comp@ =~= seq!['.']);
        }
        if comp@ == seq!['.'] {
            assert(comp@[0] == '.');
        }
    }
    assert(empty == is_empty_piece(comp@));
    if empty && cut > 0 {
        let shorter = sub_chars(&r, 0, r.len() - cut);
        assert(shorter@ =~= r@.take(r.len() - cut));
        trim_back_exec(shorter, floor)
    } else {
        r
    }
}

fn strip_rest_exec(s: &Vec<char>, n: usize) -> (out: Vec<char>)
    ensures
        out@ == strip_rest(s@, n as nat),
{
    let st: usize = if s.len() > 0 && (s[0] == '/' || (s[0] == '.' && (s.len() == 1 || s[1]
        == '/'))) {
        1
    } else {
        0
    };
    assert(st == start_len(s@));
    if n == 0 {
        let all = sub_chars(s, 0, s.len());
        assert(all@ =~= s@);
        trim_back_exec(all, st)
    } else {
        let body = sub_chars(s, st, s.len());
        assert(body@ =~= s@.skip(st as int));
        let after = body_after_exec(body, n - st);
        trim_back_exec(skip_empty_pieces_exec(after), 0)
    }
}

/// Render a path relative to `$HOME` as `~/...` for readable output; `home`
/// is `$HOME` when it is set.
pub fn tilde(path: &str, home: Option<&str>) -> (out: String)
    ensures
        out@ == spec_tilde(path@, match home {
            Some(h) => Some(h@),
            None => None,
        }),
{
    match home {
        Some(h) => {
            let p = components_of(path);
            let q = components_of(h);
            if components_prefix(&q, &p) {
                let mut out = string_of(&chars_of("~/"));
                let rest = strip_rest_exec(&chars_of(path), q.len());
                push_str_chars(&mut out, &rest);
                out
            } else {
                string_of(&chars_of(path))
            }
        },
        None => string_of(&chars_of(path)),
    }
}

} // verus!
