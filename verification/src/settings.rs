//! Machine-level opt-outs, `~/.config/omatheme/config.toml`.
//!
//! A theme bundles what its author thinks belongs together; the person
//! running it may only want some of it. Someone who likes a theme's colours
//! but not its launcher writes:
//!
//! ```toml
//! [themes.spiderverse]
//! launcher = false
//! lock = false
//! ```
//!
//! or turns a part off everywhere with a top-level `launcher = false`.
use vstd::prelude::*;
use crate::assoc::string_keys_ascending;
use crate::text::{chars_of, eq_chars};

verus! {

/// One part of a profile, so it can be switched off by name.
#[derive(Debug, Clone, Copy, PartialEq, Eq, Structural)]
pub enum Part {
    Wallpaper,
    Font,
    Shell,
    Menu,
    Lock,
    Launcher,
    Commands,
}

/// On/off switches for each part; `None` says nothing.
#[derive(Debug, Clone, Copy)]
pub struct Toggles {
    pub wallpaper: Option<bool>,
    pub font: Option<bool>,
    pub shell: Option<bool>,
    pub menu: Option<bool>,
    pub lock: Option<bool>,
    pub launcher: Option<bool>,
    pub commands: Option<bool>,
}

/// The switch `t` holds for `part`.
pub open spec fn toggle(t: Toggles, part: Part) -> Option<bool> {
    match part {
        Part::Wallpaper => t.wallpaper,
        Part::Font => t.font,
        Part::Shell => t.shell,
        Part::Menu => t.menu,
        Part::Lock => t.lock,
        Part::Launcher => t.launcher,
        Part::Commands => t.commands,
    }
}

impl Toggles {
    /// Nothing switched either way.
    pub fn unset() -> (t: Toggles)
        ensures
            forall|p: Part| toggle(t, p) is None,
    {
        Toggles {
            wallpaper: None,
            font: None,
            shell: None,
            menu: None,
            lock: None,
            launcher: None,
            commands: None,
        }
    }

    pub fn get(&self, part: Part) -> (r: Option<bool>)
        ensures
            r == toggle(*self, part),
    {
        match part {
            Part::Wallpaper => self.wallpaper,
            Part::Font => self.font,
            Part::Shell => self.shell,
            Part::Menu => self.menu,
            Part::Lock => self.lock,
            Part::Launcher => self.launcher,
            Part::Commands => self.commands,
        }
    }
}

impl Default for Toggles {
    fn default() -> (t: Toggles)
        ensures
            forall|p: Part| toggle(t, p) is None,
    {
        Toggles::unset()
    }
}

/// The per-theme switches of `themes` for `theme`: the first entry with that
/// slug.
pub open spec fn theme_toggles(themes: Seq<(Seq<char>, Toggles)>, theme: Seq<char>) -> Option<
    Toggles,
>
    decreases themes.len(),
{
    if themes.len() == 0 {
        None
    } else if themes[0].0 == theme {
        Some(themes[0].1)
    } else {
        theme_toggles(themes.drop_first(), theme)
    }
}

/// Whether `part` is on for `theme`: the theme's own switch if it has one,
/// else the global switch, else on.
pub open spec fn spec_enabled(
    global: Toggles,
    themes: Seq<(Seq<char>, Toggles)>,
    theme: Seq<char>,
    part: Part,
) -> bool {
    let per_theme = match theme_toggles(themes, theme) {
        Some(t) => toggle(t, part),
        None => None,
    };
    match per_theme {
        Some(b) => b,
        None => match toggle(global, part) {
            Some(b) => b,
            None => true,
        },
    }
}

/// The machine's opt-outs: global switches, and per-theme overrides keyed by
/// theme slug that win over them, in ascending order of slug.
pub struct Settings {
    global: Toggles,
    themes: Vec<(String, Toggles)>,
}

impl Settings {
    /// The per-theme overrides are a map: slugs in ascending order, none
    /// twice.
    #[verifier::type_invariant]
    spec fn themes_in_order(self) -> bool {
        string_keys_ascending(self.themes@)
    }
}

pub open spec fn themes_view(v: Seq<(String, Toggles)>) -> Seq<(Seq<char>, Toggles)> {
    v.map_values(|e: (String, Toggles)| (e.0@, e.1))
}

impl View for Settings {
    type V = (Toggles, Seq<(Seq<char>, Toggles)>);

    closed spec fn view(&self) -> (Toggles, Seq<(Seq<char>, Toggles)>) {
        (self.global, themes_view(self.themes@))
    }
}

impl Default for Settings {
    fn default() -> (s: Settings)
        ensures
            forall|p: Part| toggle(s@.0, p) is None,
            s@.1.len() == 0,
    {
        Settings { global: Toggles::unset(), themes: Vec::new() }
    }
}

impl Settings {
    /// Settings from their global switches and per-theme overrides.
    pub fn new(global: Toggles, themes: Vec<(String, Toggles)>) -> (s: Settings)
        requires
            string_keys_ascending(themes@),
        ensures
            s@ == (global, themes_view(themes@)),
    {
        Settings { global, themes }
    }

    /// The per-theme switches for `theme`.
    fn theme(&self, theme: &str) -> (r: Option<Toggles>)
        ensures
            r == theme_toggles(self@.1, theme@),
    {
        let name = chars_of(theme);
        let mut i: usize = 0;
        assert(self@.1.skip(0) =~= self@.1);
        while i < self.themes.len()
            invariant
                i <= self.themes.len(),
                name@ == theme@,
                self@.1 == themes_view(self.themes@),
                theme_toggles(self@.1, theme@) == theme_toggles(self@.1.skip(i as int), theme@),
            decreases self.themes.len() - i,
        {
            let ghost rest = self@.1.skip(i as int);
            assert(rest[0] == (self.themes@[i as int].0@, self.themes@[i as int].1));
            if eq_chars(&chars_of(self.themes[i].0.as_str()), &name) {
                return Some(self.themes[i].1);
            }
            assert(rest.drop_first() =~= self@.1.skip(i + 1));
            i += 1;
        }
        None
    }

    /// Parts default to on: a profile does what it says unless told
    /// otherwise.
    pub fn enabled(&self, theme: &str, part: Part) -> (b: bool)
        ensures
            b == spec_enabled(self@.0, self@.1, theme@, part),
    {
        let per_theme = match self.theme(theme) {
            Some(t) => t.get(part),
            None => None,
        };
        match per_theme {
            Some(b) => b,
            None => match self.global.get(part) {
                Some(b) => b,
                None => true,
            },
        }
    }
}

/// Each part reads the switch of its own name, and no other: setting the
/// `commands` switch to `x` makes `x` what `Part::Commands` reads, whatever
/// the other switches say, and likewise for every part.
pub proof fn law_each_part_reads_its_switch(t: Toggles, x: Option<bool>)
    ensures
        toggle(Toggles { wallpaper: x, ..t }, Part::Wallpaper) == x,
        toggle(Toggles { font: x, ..t }, Part::Font) == x,
        toggle(Toggles { shell: x, ..t }, Part::Shell) == x,
        toggle(Toggles { menu: x, ..t }, Part::Menu) == x,
        toggle(Toggles { lock: x, ..t }, Part::Lock) == x,
        toggle(Toggles { launcher: x, ..t }, Part::Launcher) == x,
        toggle(Toggles { commands: x, ..t }, Part::Commands) == x,
{
}

/// A switch turned off globally turns the part off for every theme that
/// does not switch it back on: a top-level `commands = false` stops the post
/// commands.
pub proof fn law_global_off_turns_part_off(
    g: Toggles,
    themes: Seq<(Seq<char>, Toggles)>,
    theme: Seq<char>,
)
    requires
        match theme_toggles(themes, theme) {
            Some(t) => t.commands is None,
            None => true,
        },
    ensures
        !spec_enabled(Toggles { commands: Some(false), ..g }, themes, theme, Part::Commands),
{
}

/// A switch set for the theme wins over the global one.
pub proof fn law_per_theme_beats_global(s: Settings, theme: Seq<char>, part: Part, t: Toggles)
    requires
        theme_toggles(s@.1, theme) == Some(t),
        toggle(t, part) is Some,
    ensures
        spec_enabled(s@.0, s@.1, theme, part) == toggle(t, part)->0,
{
}

/// With no switch for the theme, the global switch decides.
pub proof fn law_global_applies_when_theme_is_silent(s: Settings, theme: Seq<char>, part: Part)
    requires
        match theme_toggles(s@.1, theme) {
            Some(t) => toggle(t, part) is None,
            None => true,
        },
        toggle(s@.0, part) is Some,
    ensures
        spec_enabled(s@.0, s@.1, theme, part) == toggle(s@.0, part)->0,
{
}

/// A part nobody switched is on.
pub proof fn law_unset_parts_stay_on(s: Settings, theme: Seq<char>, part: Part)
    requires
        match theme_toggles(s@.1, theme) {
            Some(t) => toggle(t, part) is None,
            None => true,
        },
        toggle(s@.0, part) is None,
    ensures
        spec_enabled(s@.0, s@.1, theme, part),
{
}

} // verus!
