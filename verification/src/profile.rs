//! Everything a theme carries beyond colours. It lives as `profile.toml`
//! inside the theme directory; Omarchy itself ignores the file, so a theme
//! with a profile stays a perfectly valid stock theme.
use vstd::prelude::*;
use crate::json::Json;
use crate::paths::{join_path, path_starts_with, spec_join, starts_with_path};
use crate::text::{chars_of, string_of};

verus! {

#[derive(Debug)]
pub struct Wallpaper {
    /// Path relative to the theme directory, e.g. `backgrounds/1-glitch.jpg`.
    /// Pins the wallpaper instead of letting Omarchy cycle alphabetically.
    pub default: String,
}

#[derive(Debug)]
pub struct Font {
    pub name: String,
}

#[derive(Debug)]
pub struct Shell {
    /// Dotted paths into `shell.json`, e.g. `"bar.position" = "left"`, in key
    /// order. Applied on top of the untouched base, never on the previous
    /// theme's result.
    pub patch: Vec<(String, Json)>,
}

#[derive(Debug)]
pub struct Menu {
    /// Path relative to the theme directory of a replacement
    /// `omarchy-menu.jsonc`.
    pub extension: String,
}

#[derive(Debug)]
pub struct Lock {
    /// Directory, relative to the theme, whose files are overlaid on a fresh
    /// clone of the `omarchy.lock` plugin. Ship only the presentational files
    /// (`LockView.qml` and what it pulls in), never `Service.qml`, which
    /// carries the PAM and session-lock logic.
    pub overlay: String,
}

#[derive(Debug)]
pub struct Launcher {
    /// Command `omatheme launcher <verb>` forwards to. Defaults to
    /// `omarchy-menu` when no theme declares one.
    pub command: String,
    /// Quickshell app to install under `~/.config/quickshell/<name>`.
    pub quickshell: Option<QuickshellApp>,
    /// Helper script to install into `~/.local/bin`, relative to the theme.
    pub bin: Option<String>,
    /// Run `<command> start` right after applying the theme.
    pub autostart: Option<bool>,
    /// Maps the verbs a keybinding uses onto the ones this launcher speaks,
    /// e.g. `menu = "menu"`, `apps = "toggle"`, in key order. Verbs with no
    /// entry are passed through unchanged.
    pub verbs: Vec<(String, String)>,
}

#[derive(Debug)]
pub struct QuickshellApp {
    /// Directory relative to the theme, containing `shell.qml`.
    pub source: String,
    /// Name under `~/.config/quickshell/`, the one `qs -c <name>` takes.
    pub name: String,
}

#[derive(Debug)]
pub struct Commands {
    /// Escape hatch: shell commands run after everything else, with
    /// `OMATHEME_THEME` and `OMATHEME_THEME_DIR` in the environment.
    pub post: Vec<String>,
}

#[derive(Debug)]
pub struct Profile {
    pub wallpaper: Option<Wallpaper>,
    pub font: Option<Font>,
    pub shell: Option<Shell>,
    pub menu: Option<Menu>,
    pub lock: Option<Lock>,
    pub launcher: Option<Launcher>,
    pub commands: Option<Commands>,
}

/// The profile declares nothing.
pub open spec fn is_empty_profile(p: Profile) -> bool {
    &&& p.wallpaper is None
    &&& p.font is None
    &&& p.shell is None
    &&& p.menu is None
    &&& p.lock is None
    &&& p.launcher is None
    &&& p.commands is None
}

impl Default for Profile {
    fn default() -> (p: Profile)
        ensures
            is_empty_profile(p),
    {
        Profile {
            wallpaper: None,
            font: None,
            shell: None,
            menu: None,
            lock: None,
            launcher: None,
            commands: None,
        }
    }
}

/// A theme's profile, with where it came from.
pub struct LoadedProfile {
    pub theme: String,
    pub dir: String,
    pub profile: Profile,
    /// False when the theme ships no `profile.toml`; the defaults still
    /// apply so a themed machine reverts cleanly.
    pub present: bool,
}

/// Why a theme-relative asset was refused.
pub enum AssetError {
    /// `rel` resolves outside the theme directory, to `resolved`.
    EscapesTheme { rel: String, resolved: String },
}

impl LoadedProfile {
    /// The profile of `theme` at `dir`; `parsed` is its `profile.toml` when
    /// the theme has one.
    pub fn load(theme: &str, dir: &str, parsed: Option<Profile>) -> (l: LoadedProfile)
        ensures
            l.theme@ == theme@,
            l.dir@ == dir@,
            l.present == parsed is Some,
            match parsed {
                Some(p) => l.profile == p,
                None => is_empty_profile(l.profile),
            },
    {
        let (profile, present) = match parsed {
            Some(p) => (p, true),
            None => (Profile::default(), false),
        };
        LoadedProfile {
            theme: string_of(&chars_of(theme)),
            dir: string_of(&chars_of(dir)),
            profile,
            present,
        }
    }

    /// The path a theme-relative asset names, before it is resolved.
    pub fn asset_path(&self, rel: &str) -> (p: String)
        ensures
            p@ == spec_join(self.dir@, rel@),
    {
        join_path(self.dir.as_str(), rel)
    }

    /// Resolve a theme-relative asset, refusing anything that escapes the
    /// theme directory. `theme_dir` and `resolved` are the canonical forms of
    /// the theme directory and of `asset_path(rel)`.
    pub fn asset(&self, rel: &str, theme_dir: &str, resolved: &str) -> (r: Result<
        String,
        AssetError,
    >)
        ensures
            path_starts_with(resolved@, theme_dir@) ==> (r matches Ok(p) && p@ == resolved@),
            !path_starts_with(resolved@, theme_dir@) ==> (r matches Err(
                AssetError::EscapesTheme { rel: r2, resolved: res2 },
            ) && r2@ == rel@ && res2@ == resolved@),
    {
        if starts_with_path(resolved, theme_dir) {
            Ok(string_of(&chars_of(resolved)))
        } else {
            Err(
                AssetError::EscapesTheme {
                    rel: string_of(&chars_of(rel)),
                    resolved: string_of(&chars_of(resolved)),
                },
            )
        }
    }
}

} // verus!
