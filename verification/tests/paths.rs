use omatheme::paths::slugify;

#[test]
fn slugify_matches_omarchy_normalisation() {
    assert_eq!(slugify("Gojo Latte"), "gojo-latte");
    assert_eq!(slugify("gojo-latte"), "gojo-latte");
    assert_eq!(slugify("Your_Lie In April"), "your-lie-in-april");
    assert_eq!(slugify("<b>Tokyo Night</b>"), "tokyo-night");
}

use omatheme::paths::{
    components_of, config_home, current_theme_name, file_name, home, join_path, omarchy_config,
    omarchy_share, same_path, starts_with_path, theme_candidates, theme_dir, tilde, PathError,
};

fn comps(path: &str) -> Vec<String> {
    components_of(path)
        .iter()
        .map(|c| c.iter().collect::<String>())
        .collect()
}

#[test]
fn slugify_lowercases_and_strips_outer_dashes() {
    assert_eq!(slugify("  Tokyo  Night__"), "tokyo--night");
    assert_eq!(slugify("ÉTÉ"), "été");
    assert_eq!(slugify("a\tb"), "a-b");
    assert_eq!(slugify("---"), "");
    assert_eq!(slugify("<unclosed tag"), "");
}

#[test]
fn join_follows_pathbuf_push() {
    assert_eq!(join_path("/home/u", ".config"), "/home/u/.config");
    assert_eq!(join_path("/home/u/", ".config"), "/home/u/.config");
    assert_eq!(join_path("", "a"), "a");
    assert_eq!(join_path("/home/u", "/etc"), "/etc");
}

#[test]
fn config_home_prefers_absolute_xdg() {
    assert_eq!(config_home(Some("/xdg"), Some("/home/u")).ok().unwrap(), "/xdg");
    assert_eq!(config_home(Some("rel"), Some("/home/u")).ok().unwrap(), "/home/u/.config");
    assert_eq!(config_home(None, Some("/home/u")).ok().unwrap(), "/home/u/.config");
    assert!(matches!(config_home(None, None), Err(PathError::HomeNotSet)));
    assert!(matches!(home(None), Err(PathError::HomeNotSet)));
    assert_eq!(home(Some("/h")).ok().unwrap(), "/h");
}

#[test]
fn omarchy_locations() {
    assert_eq!(omarchy_config("/home/u/.config"), "/home/u/.config/omarchy");
    assert_eq!(omarchy_share(None), "/usr/share/omarchy");
    assert_eq!(omarchy_share(Some("/opt/omarchy")), "/opt/omarchy");
    assert_eq!(
        omatheme::paths::current_state("/home/u"),
        "/home/u/.local/state/omarchy/current"
    );
}

#[test]
fn user_themes_win_over_stock_ones() {
    let c = theme_candidates("Gojo Latte", "/c/omarchy", "/usr/share/omarchy");
    assert_eq!(c.user, "/c/omarchy/themes/gojo-latte");
    assert_eq!(c.stock, "/usr/share/omarchy/themes/gojo-latte");
    let pick = |u, s| theme_dir("Gojo Latte", "/c/omarchy", "/usr/share/omarchy", u, s);
    assert_eq!(pick(true, true).ok().unwrap(), "/c/omarchy/themes/gojo-latte");
    assert_eq!(pick(false, true).ok().unwrap(), "/usr/share/omarchy/themes/gojo-latte");
    match pick(false, false) {
        Err(PathError::UnknownTheme { slug }) => assert_eq!(slug, "gojo-latte"),
        _ => panic!("expected an unknown theme"),
    }
}

#[test]
fn current_theme_name_is_trimmed() {
    assert_eq!(current_theme_name("gojo-latte\n").ok().unwrap(), "gojo-latte");
    assert!(matches!(current_theme_name(" \n\t"), Err(PathError::EmptyThemeName)));
}

#[test]
fn components_normalise_separators() {
    assert_eq!(comps("/home//u/./x/"), vec!["/", "home", "u", "x"]);
    assert_eq!(comps("./a/b"), vec![".", "a", "b"]);
    assert_eq!(comps("a/../b"), vec!["a", "..", "b"]);
    assert!(comps("").is_empty());
}

#[test]
fn paths_compare_by_component() {
    assert!(starts_with_path("/home/u/x", "/home/u"));
    assert!(starts_with_path("/home/u", "/home/u/"));
    assert!(!starts_with_path("/home/user", "/home/u"));
    assert!(starts_with_path("/anything", "/"));
    assert!(same_path("/a//b/", "/a/b"));
    assert!(!same_path("/a/b", "/a/c"));
}

#[test]
fn file_names_follow_path_file_name() {
    assert_eq!(file_name("/a/b.sh").unwrap(), "b.sh");
    assert_eq!(file_name("foo.txt/.").unwrap(), "foo.txt");
    assert!(file_name("/").is_none());
    assert!(file_name("a/..").is_none());
    assert!(file_name("").is_none());
}

#[test]
fn tilde_shortens_home() {
    assert_eq!(tilde("/home/u/.config/x", Some("/home/u")), "~/.config/x");
    assert_eq!(tilde("/home/u", Some("/home/u")), "~/");
    assert_eq!(tilde("/home/user/x", Some("/home/u")), "/home/user/x");
    assert_eq!(tilde("/etc/x", None), "/etc/x");
}

#[test]
fn a_slug_is_its_own_slug() {
    for name in ["Gojo Latte", "<b>Tokyo Night</b>", "  Your_Lie In April--", "a\tb_c"] {
        let slug = slugify(name);
        assert_eq!(slugify(&slug), slug);
    }
}

#[test]
fn tilde_keeps_the_rest_as_written() {
    assert_eq!(tilde("/h/a//b", Some("/h")), "~/a//b");
    assert_eq!(tilde("/h/a/./b", Some("/h")), "~/a/./b");
    assert_eq!(tilde("/h//./a/./", Some("/h")), "~/a");
    assert_eq!(tilde("/h/", Some("/h")), "~/");
    assert_eq!(tilde("/h/./x/", Some("/h/")), "~/x");
    assert_eq!(tilde("/a/b/", Some("/")), "~/a/b");
}

#[test]
fn tags_drop_out_of_the_slug() {
    assert_eq!(slugify("Tokyo <b>Night"), slugify("Tokyo Night"));
    assert_eq!(slugify("Tokyo <<x y>Night</b>"), slugify("Tokyo Night</b>"));
    assert_eq!(slugify("Gojo<span>x</span> Latte"), "gojox-latte");
}

#[test]
fn a_name_and_its_slug_find_the_same_theme() {
    let by_name = theme_candidates("Gojo Latte", "/c/omarchy", "/s");
    let by_slug = theme_candidates(&slugify("Gojo Latte"), "/c/omarchy", "/s");
    assert_eq!(by_name.user, by_slug.user);
    assert_eq!(by_name.stock, by_slug.stock);
}
