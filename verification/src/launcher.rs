//! The theme's launcher, reached through one stable entry point.
//!
//! `omatheme launcher menu` is what the keybinding calls, so switching
//! themes never means rebinding a key. Launchers do not agree on verbs —
//! Omarchy's menu says `toggle` and `toggle apps`, another may say `menu` and
//! `toggle`. The keybinding speaks one vocabulary and the profile maps it onto
//! whatever the launcher accepts.
use vstd::prelude::*;
use crate::assoc::{
    entry_get, entry_insert, keys_ascending, lemma_key_index, lemma_str_lt_irreflexive, pair_get,
    pair_insert, pairs_view, str_lt, string_keys_ascending,
};
use crate::paths::{join_path, spec_join};
use crate::profile::Launcher;
use crate::text::{
    chars_of, eq_chars, find, is_whitespace, lemma_find, lines, lines_of, push_char,
    push_str_chars, split_once, split_once_chars, string_of, strip_cr, trim, trim_chars, views,
    whitespace_char,
};

verus! {

/// What Omarchy binds to SUPER + SPACE out of the box.
pub open spec fn default_command() -> Seq<char> {
    "omarchy-menu"@
}

fn default_command_string() -> (s: String)
    ensures
        s@ == default_command(),
{
    string_of(&chars_of("omarchy-menu"))
}

// ---------------------------------------------------------------------------
// The state files
// ---------------------------------------------------------------------------

/// Where the launcher command in use is recorded, and the verb map beside it.
pub fn state_file(home: &str) -> (p: (String, String))
    ensures
        p.0@ == spec_join(home@, ".local/state/omatheme/launcher"@),
        p.1@ == spec_join(home@, ".local/state/omatheme/launcher.verbs"@),
{
    (
        join_path(home, ".local/state/omatheme/launcher"),
        join_path(home, ".local/state/omatheme/launcher.verbs"),
    )
}

/// The launcher command recorded in the state file: its trimmed contents,
/// when it could be read and holds more than whitespace.
pub open spec fn spec_current_command(contents: Option<Seq<char>>) -> Option<Seq<char>> {
    match contents {
        Some(c) => if trim(c).len() > 0 {
            Some(trim(c))
        } else {
            None
        },
        None => None,
    }
}

/// The launcher command currently in use; `contents` is the state file when
/// it could be read.
pub fn current_command(contents: Option<&str>) -> (r: Option<String>)
    ensures
        match r {
            Some(c) => spec_current_command(match contents {
                Some(s) => Some(s@),
                None => None,
            }) == Some(c@),
            None => spec_current_command(match contents {
                Some(s) => Some(s@),
                None => None,
            }) is None,
        },
{
    match contents {
        Some(s) => {
            let t = trim_chars(&chars_of(s));
            if t.len() == 0 {
                None
            } else {
                Some(string_of(&t))
            }
        },
        None => None,
    }
}

/// The verb map read from `verb<TAB>mapped` lines; a later line for the same
/// verb wins, lines without a tab are ignored.
pub open spec fn verbs_of_lines(ls: Seq<Seq<char>>) -> Seq<(Seq<char>, Seq<char>)>
    decreases ls.len(),
{
    if ls.len() == 0 {
        seq![]
    } else {
        let m = verbs_of_lines(ls.drop_last());
        match split_once(ls.last(), '\t') {
            Some((verb, mapped)) => entry_insert(m, verb, mapped),
            None => m,
        }
    }
}

/// Omarchy's menu is the fallback, so its mapping is built in: the root menu
/// is `toggle`, the app list `toggle apps`.
pub open spec fn builtin_verbs() -> Seq<(Seq<char>, Seq<char>)> {
    seq![("menu"@, "toggle"@), ("apps"@, "toggle apps"@)]
}

/// The verb map of the launcher in use: the verbs file (`raw`, empty when it
/// cannot be read), or the built-in mapping of Omarchy's menu when the file
/// maps nothing and Omarchy's menu is the command.
pub open spec fn spec_current_verbs(raw: Seq<char>, command: Option<Seq<char>>) -> Seq<
    (Seq<char>, Seq<char>),
> {
    let v = verbs_of_lines(lines(raw));
    let cmd = match command {
        Some(c) => c,
        None => default_command(),
    };
    if v.len() == 0 && cmd == default_command() {
        builtin_verbs()
    } else {
        v
    }
}

/// The verb map of the launcher in use. `raw` is the verbs file (empty when
/// it cannot be read) and `command` the current launcher command.
pub fn current_verbs(raw: &str, command: Option<&str>) -> (verbs: Vec<(String, String)>)
    ensures
        pairs_view(verbs@) == spec_current_verbs(raw@, match command {
            Some(c) => Some(c@),
            None => None,
        }),
{
    let ls = lines_of(&chars_of(raw));
    let mut verbs: Vec<(String, String)> = Vec::new();
    let mut i: usize = 0;
    while i < ls.len()
        invariant
            i <= ls.len(),
            views(ls@) == lines(raw@),
            pairs_view(verbs@) == verbs_of_lines(views(ls@).take(i as int)),
        decreases ls.len() - i,
    {
        let ghost prefix = views(ls@).take(i as int);
        let ghost next = views(ls@).take(i + 1);
        assert(next.drop_last() =~= prefix);
        assert(next.last() == ls@[i as int]@);
        match split_once_chars(&ls[i], '\t') {
            Some((verb, mapped)) => {
                pair_insert(&mut verbs, string_of(&verb), string_of(&mapped));
            },
            None => {},
        }
        i += 1;
    }
    assert(views(ls@).take(ls.len() as int) =~= views(ls@));
    let is_default = match command {
        Some(c) => eq_chars(&chars_of(c), &chars_of("omarchy-menu")),
        None => true,
    };
    if verbs.len() == 0 && is_default {
        let mut builtin: Vec<(String, String)> = Vec::new();
        builtin.push((string_of(&chars_of("menu")), string_of(&chars_of("toggle"))));
        builtin.push((string_of(&chars_of("apps")), string_of(&chars_of("toggle apps"))));
        assert(pairs_view(builtin@) =~= builtin_verbs());
        builtin
    } else {
        verbs
    }
}

/// One line of the verbs file.
pub open spec fn verb_line(verb: Seq<char>, mapped: Seq<char>) -> Seq<char> {
    verb + seq!['\t'] + mapped + seq!['\n']
}

/// The verbs file that records a verb map: one `verb<TAB>mapped` line per
/// entry, in order.
pub open spec fn render_verbs(vs: Seq<(Seq<char>, Seq<char>)>) -> Seq<char>
    decreases vs.len(),
{
    if vs.len() == 0 {
        seq![]
    } else {
        render_verbs(vs.drop_last()) + verb_line(vs.last().0, vs.last().1)
    }
}

/// The contents of the verbs file for a launcher's verb map.
pub fn verbs_text(verbs: &Vec<(String, String)>) -> (s: String)
    ensures
        s@ == render_verbs(pairs_view(verbs@)),
{
    let mut s = String::new();
    let mut i: usize = 0;
    while i < verbs.len()
        invariant
            i <= verbs.len(),
            s@ == render_verbs(pairs_view(verbs@).take(i as int)),
        decreases verbs.len() - i,
    {
        let ghost next = pairs_view(verbs@).take(i + 1);
        assert(next.drop_last() =~= pairs_view(verbs@).take(i as int));
        assert(next.last() == (verbs@[i as int].0@, verbs@[i as int].1@));
        push_str_chars(&mut s, &chars_of(verbs[i].0.as_str()));
        push_char(&mut s, '\t');
        push_str_chars(&mut s, &chars_of(verbs[i].1.as_str()));
        push_char(&mut s, '\n');
        i += 1;
        assert(s@ =~= render_verbs(next));
    }
    assert(pairs_view(verbs@).take(verbs.len() as int) =~= pairs_view(verbs@));
    s
}

// ---------------------------------------------------------------------------
// Dispatch
// ---------------------------------------------------------------------------

/// Words read so far, and the word being read, after `s`.
pub open spec fn words_state(s: Seq<char>) -> (Seq<Seq<char>>, Seq<char>)
    decreases s.len(),
{
    if s.len() == 0 {
        (seq![], seq![])
    } else {
        let (done, cur) = words_state(s.drop_last());
        let c = s.last();
        if whitespace_char(c) {
            if cur.len() > 0 {
                (done.push(cur), seq![])
            } else {
                (done, seq![])
            }
        } else {
            (done, cur.push(c))
        }
    }
}

/// What `str::split_whitespace` yields: the maximal runs of characters that
/// are not whitespace, in order.
pub open spec fn words(s: Seq<char>) -> Seq<Seq<char>> {
    let (done, cur) = words_state(s);
    if cur.len() > 0 {
        done.push(cur)
    } else {
        done
    }
}

fn words_of(s: &str) -> (out: Vec<String>)
    ensures
        out@.map_values(|w: String| w@) == words(s@),
{
    let v = chars_of(s);
    let mut done: Vec<String> = Vec::new();
    let mut cur: Vec<char> = Vec::new();
    let mut i: usize = 0;
    while i < v.len()
        invariant
            i <= v.len(),
            v@ == s@,
            (done@.map_values(|w: String| w@), cur@) == words_state(v@.take(i as int)),
        decreases v.len() - i,
    {
        let ghost next = v@.take(i + 1);
        assert(next.drop_last() =~= v@.take(i as int));
        assert(next.last() == v@[i as int]);
        let c = v[i];
        let ghost before = done@.map_values(|w: String| w@);
        if is_whitespace(c) {
            if cur.len() > 0 {
                let w = string_of(&cur);
                done.push(w);
                assert(done@.map_values(|w: String| w@) =~= before.push(cur@));
                cur = Vec::new();
            }
        } else {
            cur.push(c);
        }
        i += 1;
        assert(done@.map_values(|w: String| w@) == words_state(next).0);
        assert(cur@ =~= words_state(next).1);
    }
    assert(v@.take(v.len() as int) =~= v@);
    if cur.len() > 0 {
        let ghost before = done@.map_values(|w: String| w@);
        let w = string_of(&cur);
        done.push(w);
        assert(done@.map_values(|w: String| w@) =~= before.push(cur@));
    }
    done
}

/// The arguments handed to the launcher: the first verb replaced by the
/// words it maps to, the rest passed through.
pub open spec fn spec_translate(args: Seq<Seq<char>>, verbs: Seq<(Seq<char>, Seq<char>)>) -> Seq<
    Seq<char>,
> {
    if args.len() == 0 {
        seq![]
    } else {
        (match entry_get(verbs, args[0]) {
            Some(mapped) => words(mapped),
            None => seq![args[0]],
        }) + args.drop_first()
    }
}

/// Translate the keybinding's arguments for the launcher in use.
pub fn translate(args: &Vec<String>, verbs: &Vec<(String, String)>) -> (out: Vec<String>)
    ensures
        out@.map_values(|w: String| w@) == spec_translate(
            args@.map_values(|w: String| w@),
            pairs_view(verbs@),
        ),
{
    let ghost a = args@.map_values(|w: String| w@);
    if args.len() == 0 {
        let out: Vec<String> = Vec::new();
        assert(out@.map_values(|w: String| w@) =~= Seq::<Seq<char>>::empty());
        return out;
    }
    let mut out: Vec<String> = match pair_get(verbs, args[0].as_str()) {
        Some(mapped) => words_of(mapped.as_str()),
        None => {
            let mut v: Vec<String> = Vec::new();
            v.push(string_of(&chars_of(args[0].as_str())));
            assert(v@.map_values(|w: String| w@) =~= seq![a[0]]);
            v
        },
    };
    let ghost head = out@.map_values(|w: String| w@);
    let mut i: usize = 1;
    while i < args.len()
        invariant
            1 <= i <= args.len(),
            a == args@.map_values(|w: String| w@),
            out@.map_values(|w: String| w@) == head + a.subrange(1, i as int),
        decreases args.len() - i,
    {
        let ghost before = out@.map_values(|w: String| w@);
        out.push(string_of(&chars_of(args[i].as_str())));
        assert(out@.map_values(|w: String| w@) =~= before.push(a[i as int]));
        i += 1;
        assert(out@.map_values(|w: String| w@) =~= head + a.subrange(1, i as int));
    }
    assert(a.subrange(1, a.len() as int) =~= a.drop_first());
    out
}

/// What `omatheme launcher <args>` runs.
pub struct Dispatch {
    pub command: String,
    pub args: Vec<String>,
}

/// Run the current theme's launcher: `state` is the command state file and
/// `verbs_raw` the verbs file (empty when it cannot be read).
pub fn dispatch(args: &Vec<String>, state: Option<&str>, verbs_raw: &str) -> (d: Dispatch)
    ensures
        d.command@ == match spec_current_command(match state {
            Some(s) => Some(s@),
            None => None,
        }) {
            Some(c) => c,
            None => default_command(),
        },
        d.args@.map_values(|w: String| w@) == spec_translate(
            args@.map_values(|w: String| w@),
            spec_current_verbs(verbs_raw@, spec_current_command(match state {
                Some(s) => Some(s@),
                None => None,
            })),
        ),
{
    let current = current_command(state);
    let verbs = match &current {
        Some(c) => current_verbs(verbs_raw, Some(c.as_str())),
        None => current_verbs(verbs_raw, None),
    };
    let command = match current {
        Some(c) => c,
        None => default_command_string(),
    };
    Dispatch { command, args: translate(args, &verbs) }
}

// ---------------------------------------------------------------------------
// Switching launchers
// ---------------------------------------------------------------------------

/// What switching to a theme's launcher takes.
pub struct LauncherPlan {
    /// The launcher command of the theme.
    pub command: String,
    /// The command changes: stopping the previous launcher and writing the
    /// state files are due. When it does not, they are not.
    pub switch: bool,
    /// A previous launcher other than Omarchy's menu, asked to stop first.
    pub stop_previous: Option<String>,
    /// New contents of the command state file.
    pub state_text: String,
    /// New contents of the verbs file.
    pub verbs_text: String,
    /// Run `<command> start` right after the theme is applied, whether the
    /// command changed or not.
    pub start: bool,
}

/// The launcher command a profile asks for.
pub open spec fn declared_command(declared: Option<&Launcher>) -> Seq<char> {
    match declared {
        Some(l) => l.command@,
        None => default_command(),
    }
}

/// The verb map a profile declares.
pub open spec fn declared_verbs(declared: Option<&Launcher>) -> Seq<(Seq<char>, Seq<char>)> {
    match declared {
        Some(l) => pairs_view(l.verbs@),
        None => seq![],
    }
}

/// The launcher is switched unless the command in use is already `command`.
pub open spec fn spec_switch(previous: Option<Seq<char>>, command: Seq<char>) -> bool {
    previous != Some(command)
}

/// Install the theme's launcher and remember which command is current, so
/// the keybinding can stay a single stable entry point. `previous` is the
/// command in use, `declared` the theme's launcher when it has one and it is
/// enabled.
pub fn plan(previous: Option<&str>, declared: Option<&Launcher>) -> (p: LauncherPlan)
    requires
        declared matches Some(l) ==> string_keys_ascending(l.verbs@),
    ensures
        p.command@ == declared_command(declared),
        p.switch == spec_switch(
            match previous {
                Some(prev) => Some(prev@),
                None => None,
            },
            declared_command(declared),
        ),
        match p.stop_previous {
            Some(s) => p.switch && (previous matches Some(prev) && prev@ == s@) && s@
                != default_command(),
            None => !p.switch || previous is None || (previous matches Some(prev) && prev@
                == default_command()),
        },
        p.state_text@ == declared_command(declared) + seq!['\n'],
        p.verbs_text@ == render_verbs(declared_verbs(declared)),
        p.start == ((declared matches Some(l) && l.autostart == Some(true))
            && declared_command(declared) != default_command()),
{
    let command = match declared {
        Some(l) => string_of(&chars_of(l.command.as_str())),
        None => default_command_string(),
    };
    let cmd = chars_of(command.as_str());
    let default = chars_of("omarchy-menu");
    let switch = match previous {
        Some(prev) => !eq_chars(&chars_of(prev), &cmd),
        None => true,
    };
    let stop_previous = match previous {
        Some(prev) => if switch && !eq_chars(&chars_of(prev), &default) {
            Some(string_of(&chars_of(prev)))
        } else {
            None
        },
        None => None,
    };
    let mut state_text = string_of(&cmd);
    push_char(&mut state_text, '\n');
    let verbs_text = match declared {
        Some(l) => verbs_text(&l.verbs),
        None => {
            let s = String::new();
            assert(render_verbs(seq![]) =~= s@);
            s
        },
    };
    let autostart = match declared {
        Some(l) => match l.autostart {
            Some(b) => b,
            None => false,
        },
        None => false,
    };
    let start = autostart && !eq_chars(&cmd, &default);
    LauncherPlan { command, switch, stop_previous, state_text, verbs_text, start }
}

// ---------------------------------------------------------------------------
// Laws
// ---------------------------------------------------------------------------

/// No character of `s` is `c`.
pub open spec fn free_of(s: Seq<char>, c: char) -> bool {
    forall|j: int| 0 <= j < s.len() ==> s[j] != c
}

/// A verb map that the verbs file records faithfully: verbs in ascending
/// order, as the profile holds them, no tab in a verb, no line break
/// anywhere, no carriage return ending a mapping.
pub open spec fn verbs_recordable(vs: Seq<(Seq<char>, Seq<char>)>) -> bool {
    &&& keys_ascending(vs)
    &&& forall|i: int|
        #![trigger vs[i]]
        0 <= i < vs.len() ==> {
            &&& free_of(vs[i].0, '\t')
            &&& free_of(vs[i].0, '\n')
            &&& free_of(vs[i].1, '\n')
            &&& (vs[i].1.len() == 0 || vs[i].1.last() != '\r')
        }
}

proof fn lemma_lines_append(a: Seq<char>, b: Seq<char>)
    requires
        a.len() == 0 || a.last() == '\n',
    ensures
        lines(a + b) == lines(a) + lines(b),
    decreases a.len(),
{
    if a.len() == 0 {
        assert(a + b =~= b);
        assert(lines(a) =~= Seq::<Seq<char>>::empty());
        assert(lines(a) + lines(b) =~= lines(b));
    } else {
        crate::text::lemma_find_bounds(a, '\n', 0);
        let i = find(a, '\n');
        assert(i < a.len());
        let ab = a + b;
        assert forall|m: int| 0 <= m < i implies #[trigger] ab[m] != '\n' by {
            assert(ab[m] == a[m]);
        }
        assert(ab[i] == a[i]);
        lemma_find(ab, '\n', i);
        assert(ab.take(i) =~= a.take(i));
        assert(ab.skip(i + 1) =~= a.skip(i + 1) + b);
        let rest = a.skip(i + 1);
        if rest.len() > 0 {
            assert(rest.last() == a.last());
        }
        lemma_lines_append(rest, b);
        assert(lines(ab) == seq![strip_cr(ab.take(i))] + lines(ab.skip(i + 1)));
        assert(lines(a) == seq![strip_cr(a.take(i))] + lines(a.skip(i + 1)));
        assert(lines(ab) =~= lines(a) + lines(b));
    }
}

proof fn lemma_lines_of_verb_line(k: Seq<char>, v: Seq<char>)
    requires
        free_of(k, '\n'),
        free_of(v, '\n'),
        v.len() == 0 || v.last() != '\r',
    ensures
        lines(verb_line(k, v)) == seq![k + seq!['\t'] + v],
{
    let s = verb_line(k, v);
    let body = k + seq!['\t'] + v;
    assert(s =~= body + seq!['\n']);
    assert forall|m: int| 0 <= m < body.len() implies #[trigger] s[m] != '\n' by {
        if m < k.len() {
            assert(s[m] == k[m]);
        } else if m == k.len() {
            assert(s[m] == '\t');
        } else {
            assert(s[m] == v[m - k.len() - 1]);
        }
    }
    lemma_find(s, '\n', body.len() as int);
    assert(s.take(body.len() as int) =~= body);
    assert(s.skip(body.len() as int + 1) =~= Seq::<char>::empty());
    assert(lines(Seq::<char>::empty()) =~= Seq::<Seq<char>>::empty());
    if v.len() > 0 {
        assert(body.last() == v.last());
    } else {
        assert(body.last() == '\t');
    }
    assert(lines(s) =~= seq![body]);
}

/// The line the verbs file holds for each entry.
pub open spec fn verb_texts(vs: Seq<(Seq<char>, Seq<char>)>) -> Seq<Seq<char>> {
    vs.map_values(|e: (Seq<char>, Seq<char>)| e.0 + seq!['\t'] + e.1)
}

proof fn lemma_render_ends_with_newline(vs: Seq<(Seq<char>, Seq<char>)>)
    ensures
        render_verbs(vs).len() == 0 || render_verbs(vs).last() == '\n',
    decreases vs.len(),
{
}

proof fn lemma_lines_render(vs: Seq<(Seq<char>, Seq<char>)>)
    requires
        verbs_recordable(vs),
    ensures
        lines(render_verbs(vs)) == verb_texts(vs),
    decreases vs.len(),
{
    if vs.len() == 0 {
        assert(lines(Seq::<char>::empty()) =~= Seq::<Seq<char>>::empty());
        assert(verb_texts(vs) =~= Seq::<Seq<char>>::empty());
    } else {
        let init = vs.drop_last();
        assert forall|i: int| #![trigger init[i]] 0 <= i < init.len() implies {
            &&& free_of(init[i].0, '\t')
            &&& free_of(init[i].0, '\n')
            &&& free_of(init[i].1, '\n')
            &&& (init[i].1.len() == 0 || init[i].1.last() != '\r')
        } by {
            assert(init[i] == vs[i]);
        }
        assert forall|a: int, b: int| 0 <= a < b < init.len() implies str_lt(
            #[trigger] init[a].0,
            #[trigger] init[b].0,
        ) by {
            assert(init[a] == vs[a] && init[b] == vs[b]);
        }
        lemma_lines_render(init);
        lemma_render_ends_with_newline(init);
        let last = vs.last();
        assert(last == vs[vs.len() - 1]);
        lemma_lines_append(render_verbs(init), verb_line(last.0, last.1));
        lemma_lines_of_verb_line(last.0, last.1);
        assert(verb_texts(vs) =~= verb_texts(init).push(last.0 + seq!['\t'] + last.1));
        assert(lines(render_verbs(vs)) =~= verb_texts(vs));
    }
}

proof fn lemma_split_verb_text(k: Seq<char>, v: Seq<char>)
    requires
        free_of(k, '\t'),
    ensures
        split_once(k + seq!['\t'] + v, '\t') == Some((k, v)),
{
    let s = k + seq!['\t'] + v;
    assert forall|m: int| 0 <= m < k.len() implies #[trigger] s[m] != '\t' by {
        assert(s[m] == k[m]);
    }
    lemma_find(s, '\t', k.len() as int);
    assert(s.take(k.len() as int) =~= k);
    assert(s.skip(k.len() as int + 1) =~= v);
}

proof fn lemma_verbs_of_texts(vs: Seq<(Seq<char>, Seq<char>)>)
    requires
        verbs_recordable(vs),
    ensures
        verbs_of_lines(verb_texts(vs)) == vs,
    decreases vs.len(),
{
    if vs.len() == 0 {
        assert(verb_texts(vs) =~= Seq::<Seq<char>>::empty());
    } else {
        let init = vs.drop_last();
        assert forall|i: int| #![trigger init[i]] 0 <= i < init.len() implies {
            &&& free_of(init[i].0, '\t')
            &&& free_of(init[i].0, '\n')
            &&& free_of(init[i].1, '\n')
            &&& (init[i].1.len() == 0 || init[i].1.last() != '\r')
        } by {
            assert(init[i] == vs[i]);
        }
        assert forall|a: int, b: int| 0 <= a < b < init.len() implies str_lt(
            #[trigger] init[a].0,
            #[trigger] init[b].0,
        ) by {
            assert(init[a] == vs[a] && init[b] == vs[b]);
        }
        lemma_verbs_of_texts(init);
        let last = vs.last();
        assert(last == vs[vs.len() - 1]);
        let ts = verb_texts(vs);
        assert(ts.drop_last() =~= verb_texts(init));
        assert(ts.last() == last.0 + seq!['\t'] + last.1);
        lemma_split_verb_text(last.0, last.1);
        assert forall|q: int| 0 <= q < init.len() implies (#[trigger] init[q]).0 != last.0 by {
            assert(init[q] == vs[q]);
            assert(str_lt(vs[q].0, vs[vs.len() - 1].0));
            lemma_str_lt_irreflexive(last.0);
        }
        lemma_key_index(init, last.0, init.len() as int);
        assert(init.push(last) =~= vs);
    }
}

/// The verbs file that switching launchers writes is read back, by the next
/// `omatheme launcher` call, as the same verb map.
pub proof fn law_verbs_file_round_trip(
    vs: Seq<(Seq<char>, Seq<char>)>,
    command: Option<Seq<char>>,
)
    requires
        verbs_recordable(vs),
        vs.len() > 0,
    ensures
        spec_current_verbs(render_verbs(vs), command) == vs,
{
    lemma_lines_render(vs);
    lemma_verbs_of_texts(vs);
}

/// The command that switching launchers records is read back as the current
/// command. Applying the same theme again therefore finds it in use and
/// switches nothing.
pub proof fn law_recorded_command_reads_back(command: Seq<char>)
    requires
        command.len() > 0,
        trim(command) == command,
    ensures
        spec_current_command(Some(command + seq!['\n'])) == Some(command),
{
    crate::text::lemma_trim_newline(command);
}

/// Applying the same launcher again switches nothing: the command that the
/// first application recorded is read back as the one in use.
pub proof fn law_launcher_reapply_switches_nothing(command: Seq<char>)
    requires
        command.len() > 0,
        trim(command) == command,
    ensures
        !spec_switch(spec_current_command(Some(command + seq!['\n'])), command),
{
    law_recorded_command_reads_back(command);
}

/// Verbs the profile does not map are passed through unchanged.
pub proof fn law_unmapped_verbs_pass_through(
    args: Seq<Seq<char>>,
    verbs: Seq<(Seq<char>, Seq<char>)>,
)
    requires
        args.len() > 0,
        entry_get(verbs, args[0]) is None,
    ensures
        spec_translate(args, verbs) == args,
{
    assert(seq![args[0]] + args.drop_first() =~= args);
}

} // verus!
