use omatheme::scaffold::{colors_toml, new_theme_dir, skeleton_profile, wallpaper_rel};

#[test]
fn colors_template_carries_the_name() {
    let text = colors_toml("Gojo Latte");
    assert!(text.starts_with("# Palette de Gojo Latte.\n# Omarchy dérive"));
    assert!(text.ends_with("magenta = \"#ad8ee6\"\n"));
    assert!(!text.contains("<NAME>"));
    assert_eq!(text.matches("Gojo Latte").count(), 1);
}

#[test]
fn skeleton_profile_pins_the_wallpaper() {
    assert_eq!(wallpaper_rel("1-glitch.jpg"), "backgrounds/1-glitch.jpg");
    assert_eq!(
        skeleton_profile(Some("backgrounds/1-glitch.jpg")),
        "[wallpaper]\ndefault = \"backgrounds/1-glitch.jpg\"\n"
    );
    assert_eq!(
        skeleton_profile(None),
        "# [wallpaper]\n# default = \"backgrounds/example.jpg\"\n"
    );
    assert_eq!(new_theme_dir("Gojo Latte", "/c/omarchy"), "/c/omarchy/themes/gojo-latte");
}
