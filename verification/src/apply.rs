//! Applying a theme's profile: the decisions of each step. Every step is
//! idempotent: it acts only where what is there differs from what the theme
//! asks for.
use vstd::prelude::*;
use crate::paths::{components, join_path, same_path, spec_join};
use crate::text::{chars_of, eq_chars, push_char, push_str_chars, string_of, trim, trim_chars};

verus! {

fn push_str(s: &mut String, t: &str)
    ensures
        final(s)@ == old(s)@ + t@,
{
    push_str_chars(s, &chars_of(t));
}

/// Runs the steps of a profile, or only reports them on a dry run.
pub struct Runner {
    pub dry_run: bool,
}

/// `words` joined with single spaces.
pub open spec fn joined(words: Seq<Seq<char>>) -> Seq<char>
    decreases words.len(),
{
    if words.len() == 0 {
        seq![]
    } else if words.len() == 1 {
        words[0]
    } else {
        joined(words.drop_last()) + " "@ + words.last()
    }
}

impl Runner {
    pub fn new(dry_run: bool) -> (r: Runner)
        ensures
            r.dry_run == dry_run,
    {
        Runner { dry_run }
    }

    /// The line a step prints: prefixed with `would` on a dry run.
    pub fn step(&self, msg: &str) -> (line: String)
        ensures
            line@ == if self.dry_run {
                "  would "@ + msg@
            } else {
                "  "@ + msg@
            },
    {
        let mut line = String::new();
        if self.dry_run {
            push_str(&mut line, "  would ");
        } else {
            push_str(&mut line, "  ");
        }
        push_str(&mut line, msg);
        line
    }

    /// The message of the step that runs `program` with `args`.
    pub fn run_message(&self, program: &str, args: &Vec<String>) -> (m: String)
        ensures
            m@ == "run "@ + program@ + " "@ + joined(args@.map_values(|a: String| a@)),
    {
        let mut m = String::new();
        push_str(&mut m, "run ");
        push_str(&mut m, program);
        push_str(&mut m, " ");
        let ghost base = m@;
        let ghost ws = args@.map_values(|a: String| a@);
        let mut i: usize = 0;
        while i < args.len()
            invariant
                i <= args.len(),
                ws == args@.map_values(|a: String| a@),
                m@ == base + joined(ws.take(i as int)),
            decreases args.len() - i,
        {
            let ghost next = ws.take(i + 1);
            assert(next.drop_last() =~= ws.take(i as int));
            assert(next.last() == args@[i as int]@);
            if i > 0 {
                push_str(&mut m, " ");
            }
            push_str(&mut m, args[i].as_str());
            i += 1;
            if i == 1 {
                assert(next[0] == next.last());
            }
            assert(m@ =~= base + joined(next));
        }
        assert(ws.take(args.len() as int) =~= ws);
        m
    }
}

/// A file is written only when its contents change; `existing` is what it
/// holds when it could be read.
pub open spec fn spec_write_needed(existing: Option<Seq<char>>, contents: Seq<char>) -> bool {
    !(existing == Some(contents))
}

pub fn write_needed(existing: Option<&str>, contents: &str) -> (b: bool)
    ensures
        b == spec_write_needed(match existing {
            Some(e) => Some(e@),
            None => None,
        }, contents@),
{
    match existing {
        Some(e) => !eq_chars(&chars_of(e), &chars_of(contents)),
        None => true,
    }
}

/// The wallpaper is set unless the background link already resolves to the
/// image; `current` is where it resolves, when it could be resolved.
pub open spec fn spec_wallpaper_needs_set(current: Option<Seq<char>>, image: Seq<char>) -> bool {
    !(current matches Some(c) && components(c) == components(image))
}

pub fn wallpaper_needs_set(current: Option<&str>, image: &str) -> (b: bool)
    ensures
        b == spec_wallpaper_needs_set(
            match current {
                Some(c) => Some(c@),
                None => None,
            },
            image@,
        ),
{
    match current {
        Some(c) => !same_path(c, image),
        None => true,
    }
}

/// The font in use, from the output of `omarchy-font-current` when it ran:
/// trimmed, empty when it did not run.
pub open spec fn spec_current_font(output: Option<Seq<char>>) -> Seq<char> {
    match output {
        Some(o) => trim(o),
        None => seq![],
    }
}

/// The font is set unless it is already the one in use.
pub fn font_needs_set(output: Option<&str>, name: &str) -> (b: bool)
    ensures
        b == (spec_current_font(match output {
            Some(o) => Some(o@),
            None => None,
        }) != name@),
{
    let current = match output {
        Some(o) => trim_chars(&chars_of(o)),
        None => Vec::new(),
    };
    proof {
        if output is None {
            assert(current@ =~= Seq::<char>::empty());
        }
    }
    !eq_chars(&current, &chars_of(name))
}

/// Where `shell.json` and its baseline live.
pub fn shell_paths(omarchy_config: &str) -> (p: (String, String))
    ensures
        p.0@ == spec_join(omarchy_config@, "shell.json"@),
        p.1@ == spec_join(omarchy_config@, "shell.base.json"@),
{
    (join_path(omarchy_config, "shell.json"), join_path(omarchy_config, "shell.base.json"))
}

/// Where `shell.json` is patched from.
#[derive(Debug, Clone, Copy, PartialEq, Eq, Structural)]
pub enum ShellStart {
    /// There is no `shell.json`: nothing to patch.
    Skip,
    /// Patch from the baseline `shell.base.json`.
    FromBaseline,
    /// First run: seed the baseline from the live `shell.json`, then patch
    /// from it.
    SeedFromLive,
}

pub fn shell_start(live_is_file: bool, base_is_file: bool) -> (s: ShellStart)
    ensures
        !live_is_file ==> s == ShellStart::Skip,
        live_is_file && base_is_file ==> s == ShellStart::FromBaseline,
        live_is_file && !base_is_file ==> s == ShellStart::SeedFromLive,
{
    if !live_is_file {
        ShellStart::Skip
    } else if base_is_file {
        ShellStart::FromBaseline
    } else {
        ShellStart::SeedFromLive
    }
}

/// The text written to `shell.json`: the rendered document and a line break.
pub fn shell_text(rendered: &str) -> (t: String)
    ensures
        t@ == rendered@ + seq!['\n'],
{
    let mut t = string_of(&chars_of(rendered));
    push_char(&mut t, '\n');
    t
}

/// Where the launcher menu extension and its baseline live.
pub fn menu_paths(omarchy_config: &str) -> (p: (String, String))
    ensures
        p.0@ == spec_join(spec_join(omarchy_config@, "extensions"@), "omarchy-menu.jsonc"@),
        p.1@ == spec_join(spec_join(omarchy_config@, "extensions"@), "omarchy-menu.base.jsonc"@),
{
    let ext = join_path(omarchy_config, "extensions");
    (join_path(ext.as_str(), "omarchy-menu.jsonc"), join_path(ext.as_str(), "omarchy-menu.base.jsonc"))
}

/// What the menu step does.
pub struct MenuPlan {
    /// The file whose contents become the live menu extension; nothing is
    /// done when there is none.
    pub source: Option<String>,
    /// Copy the live extension to the baseline first.
    pub seed_baseline: bool,
}

/// The launcher/menu extension follows the same baseline rule as
/// `shell.json`. `declared` is the theme's resolved menu file, when it has
/// one; without one the baseline is restored if it was ever moved.
pub fn menu_plan(declared: Option<&str>, base: &str, base_is_file: bool, live_is_file: bool) -> (p:
    MenuPlan)
    ensures
        match declared {
            Some(d) => p.source matches Some(s) && s@ == d@,
            None => if base_is_file {
                p.source matches Some(s) && s@ == base@
            } else {
                p.source is None
            },
        },
        p.seed_baseline == (p.source is Some && !base_is_file && live_is_file),
{
    let source = match declared {
        Some(d) => Some(string_of(&chars_of(d))),
        None => if base_is_file {
            Some(string_of(&chars_of(base)))
        } else {
            None
        },
    };
    let seed_baseline = source.is_some() && !base_is_file && live_is_file;
    MenuPlan { source, seed_baseline }
}

/// The first line of a profile's application.
pub fn profile_banner(theme: &str, dir: &str, present: bool) -> (b: String)
    ensures
        b@ == "omatheme: profile for "@ + theme@ + " ("@ + dir@ + (if present {
            ""@
        } else {
            ", no profile.toml — restoring defaults"@
        }) + ")"@,
{
    let mut b = String::new();
    push_str(&mut b, "omatheme: profile for ");
    push_str(&mut b, theme);
    push_str(&mut b, " (");
    push_str(&mut b, dir);
    if present {
        push_str(&mut b, "");
    } else {
        push_str(&mut b, ", no profile.toml — restoring defaults");
    }
    push_str(&mut b, ")");
    b
}

/// Writing a file again with what it now holds is skipped: a second
/// application writes nothing the first one wrote.
pub proof fn law_rewrite_is_skipped(contents: Seq<char>)
    ensures
        !spec_write_needed(Some(contents), contents),
{
}

/// A write is skipped only when the file already holds exactly the new
/// contents: contents that differ anywhere are written, and a file that
/// could not be read is written.
pub proof fn law_only_identical_contents_skip(existing: Option<Seq<char>>, contents: Seq<char>)
    ensures
        !spec_write_needed(existing, contents) ==> existing == Some(contents),
        existing is None ==> spec_write_needed(existing, contents),
        forall|k: int|
            #![trigger existing->0[k]]
            existing matches Some(e) && 0 <= k < e.len() && k < contents.len() && e[k]
                != contents[k] ==> spec_write_needed(existing, contents),
{
}

/// Once the wallpaper is set, applying again leaves it: the background link
/// resolves to the image asked for.
pub proof fn law_wallpaper_set_once(image: Seq<char>)
    ensures
        !spec_wallpaper_needs_set(Some(image), image),
{
}

/// Once the font is set, applying again leaves it: the font in use is the
/// one asked for.
pub proof fn law_font_set_once(name: Seq<char>)
    requires
        name.len() > 0,
        trim(name) == name,
    ensures
        spec_current_font(Some(name + seq!['\n'])) == name,
{
    crate::text::lemma_trim_newline(name);
}

} // verus!
