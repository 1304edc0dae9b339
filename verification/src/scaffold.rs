//! A theme skeleton Omarchy can already apply: colours, the wallpaper, a
//! preview and a profile pinning that wallpaper.
use vstd::prelude::*;
use crate::paths::{spec_slugify, spec_user_theme_dir, theme_candidates};
use crate::text::{chars_of, push_str_chars};

verus! {

/// The palette a new theme starts from, up to its name.
pub const COLORS_HEAD: &'static str = "# Palette de ";

/// The palette a new theme starts from, after its name. Omarchy derives the
/// colours left out.
pub const COLORS_TAIL: &'static str = ".\n# Omarchy dérive automatiquement brown, dark_background, darker_background et\n# les bright_* si on les omet.\n\nmode = \"dark\"\n\naccent = \"#7aa2f7\"\nselection = \"#292e42\"\nmuted = \"#414868\"\n\nbackground = \"#1a1b26\"\nlighter_background = \"#24283b\"\n\nforeground = \"#a9b1d6\"\nlight_foreground = \"#b4bee6\"\ndark_foreground = \"#565f89\"\nbright_foreground = \"#c0caf5\"\n\nred = \"#f7768e\"\nyellow = \"#e0af68\"\ngreen = \"#9ece6a\"\ncyan = \"#449dab\"\nblue = \"#7aa2f7\"\nmagenta = \"#ad8ee6\"\n";

fn push_str(s: &mut String, t: &str)
    ensures
        final(s)@ == old(s)@ + t@,
{
    push_str_chars(s, &chars_of(t));
}

/// `colors.toml` of a new theme: the starting palette, titled with the
/// theme's name.
pub fn colors_toml(name: &str) -> (t: String)
    ensures
        t@ == COLORS_HEAD@ + name@ + COLORS_TAIL@,
{
    let mut t = String::new();
    push_str(&mut t, COLORS_HEAD);
    push_str(&mut t, name);
    push_str(&mut t, COLORS_TAIL);
    t
}

/// Where the seeding wallpaper goes, relative to the theme.
pub fn wallpaper_rel(file_name: &str) -> (r: String)
    ensures
        r@ == "backgrounds/"@ + file_name@,
{
    let mut r = String::new();
    push_str(&mut r, "backgrounds/");
    push_str(&mut r, file_name);
    r
}

/// `profile.toml` of a new theme: it pins the seeding wallpaper when there
/// is one, and shows how to otherwise.
pub fn skeleton_profile(wallpaper_rel: Option<&str>) -> (p: String)
    ensures
        p@ == match wallpaper_rel {
            Some(rel) => "[wallpaper]\ndefault = \""@ + rel@ + "\"\n"@,
            None => "# [wallpaper]\n# default = \"backgrounds/example.jpg\"\n"@,
        },
{
    let mut p = String::new();
    match wallpaper_rel {
        Some(rel) => {
            push_str(&mut p, "[wallpaper]\ndefault = \"");
            push_str(&mut p, rel);
            push_str(&mut p, "\"\n");
        },
        None => {
            push_str(&mut p, "# [wallpaper]\n# default = \"backgrounds/example.jpg\"\n");
        },
    }
    p
}

/// The directory of a new theme: under the user's configuration, named by
/// the theme's slug.
pub fn new_theme_dir(name: &str, omarchy_config: &str) -> (d: String)
    ensures
        d@ == spec_user_theme_dir(omarchy_config@, spec_slugify(name@)),
{
    theme_candidates(name, omarchy_config, "").user
}

} // verus!
