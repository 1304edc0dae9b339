use omatheme::apply::{
    font_needs_set, menu_paths, menu_plan, profile_banner, shell_paths, shell_start, shell_text,
    wallpaper_needs_set, write_needed, Runner, ShellStart,
};
use omatheme::hook::{hook_path, hook_script};

#[test]
fn runner_prefixes_dry_runs() {
    assert!(Runner::new(true).dry_run);
    assert_eq!(Runner::new(true).step("write x"), "  would write x");
    assert_eq!(Runner::new(false).step("write x"), "  write x");
    let args = vec!["a".to_string(), "b c".to_string()];
    assert_eq!(Runner::new(false).run_message("prog", &args), "run prog a b c");
    assert_eq!(Runner::new(false).run_message("prog", &Vec::new()), "run prog ");
}

#[test]
fn files_are_written_only_when_they_change() {
    assert!(!write_needed(Some("x"), "x"));
    assert!(write_needed(Some("x"), "y"));
    assert!(write_needed(None, "x"));
}

#[test]
fn wallpaper_and_font_are_set_only_when_different() {
    assert!(!wallpaper_needs_set(Some("/t/bg//a.jpg"), "/t/bg/a.jpg"));
    assert!(wallpaper_needs_set(Some("/t/bg/b.jpg"), "/t/bg/a.jpg"));
    assert!(wallpaper_needs_set(None, "/t/bg/a.jpg"));
    assert!(!font_needs_set(Some("CaskaydiaMono Nerd Font\n"), "CaskaydiaMono Nerd Font"));
    assert!(font_needs_set(Some("Other\n"), "CaskaydiaMono Nerd Font"));
    assert!(font_needs_set(None, "CaskaydiaMono Nerd Font"));
    assert!(!font_needs_set(None, ""));
}

#[test]
fn shell_and_menu_plans() {
    assert_eq!(shell_start(false, true), ShellStart::Skip);
    assert_eq!(shell_start(true, true), ShellStart::FromBaseline);
    assert_eq!(shell_start(true, false), ShellStart::SeedFromLive);
    let (live, base) = shell_paths("/c/omarchy");
    assert_eq!(live, "/c/omarchy/shell.json");
    assert_eq!(base, "/c/omarchy/shell.base.json");
    assert_eq!(shell_text("{}"), "{}\n");

    let (live, base) = menu_paths("/c/omarchy");
    assert_eq!(live, "/c/omarchy/extensions/omarchy-menu.jsonc");
    assert_eq!(base, "/c/omarchy/extensions/omarchy-menu.base.jsonc");
    let p = menu_plan(Some("/t/menu.jsonc"), &base, false, true);
    assert_eq!(p.source.unwrap(), "/t/menu.jsonc");
    assert!(p.seed_baseline);
    let p = menu_plan(None, &base, true, true);
    assert_eq!(p.source.unwrap(), base);
    assert!(!p.seed_baseline);
    let p = menu_plan(None, &base, false, true);
    assert!(p.source.is_none());
    assert!(!p.seed_baseline);
}

#[test]
fn banner_and_hook() {
    assert_eq!(
        profile_banner("arcane", "~/t", false),
        "omatheme: profile for arcane (~/t, no profile.toml — restoring defaults)"
    );
    assert_eq!(profile_banner("arcane", "~/t", true), "omatheme: profile for arcane (~/t)");
    let (dir, hook) = hook_path("/c/omarchy");
    assert_eq!(dir, "/c/omarchy/hooks/theme-set.d");
    assert_eq!(hook, "/c/omarchy/hooks/theme-set.d/omatheme.hook");
    assert_eq!(
        hook_script("/bin/omatheme"),
        "#!/bin/bash\n# Installed by `omatheme install-hook`.\n# $1 is the theme slug passed by omarchy-hook.\nexec /bin/omatheme hook \"$1\"\n"
    );
}
