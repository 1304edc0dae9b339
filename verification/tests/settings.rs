use omatheme::settings::{Part, Settings, Toggles};

fn toggles_of(table: &toml::Table) -> Toggles {
    let flag = |name: &str| table.get(name).and_then(|v| v.as_bool());
    Toggles {
        wallpaper: flag("wallpaper"),
        font: flag("font"),
        shell: flag("shell"),
        menu: flag("menu"),
        lock: flag("lock"),
        launcher: flag("launcher"),
        commands: flag("commands"),
    }
}

fn parse(raw: &str) -> Settings {
    let table: toml::Table = raw.parse().unwrap();
    let mut themes = Vec::new();
    if let Some(per_theme) = table.get("themes").and_then(|v| v.as_table()) {
        for (slug, value) in per_theme {
            themes.push((slug.clone(), toggles_of(value.as_table().unwrap())));
        }
    }
    Settings::new(toggles_of(&table), themes)
}

#[test]
fn everything_is_on_by_default() {
    let settings = Settings::default();
    assert!(settings.enabled("spiderverse", Part::Lock));
}

#[test]
fn per_theme_beats_global() {
    let settings = parse("launcher = false\n[themes.spiderverse]\nlauncher = true\n");
    assert!(settings.enabled("spiderverse", Part::Launcher));
    assert!(!settings.enabled("arcane", Part::Launcher));
}

#[test]
fn unset_parts_stay_on() {
    let settings = parse("[themes.spiderverse]\nlock = false\n");
    assert!(!settings.enabled("spiderverse", Part::Lock));
    assert!(settings.enabled("spiderverse", Part::Launcher));
}

#[test]
fn global_switch_applies_to_every_theme() {
    let settings = parse("font = false\n");
    assert!(!settings.enabled("arcane", Part::Font));
    assert!(!settings.enabled("spiderverse", Part::Font));
    assert!(settings.enabled("arcane", Part::Wallpaper));
}

#[test]
fn per_theme_off_beats_global_on() {
    let settings = parse("menu = true\n[themes.arcane]\nmenu = false\n");
    assert!(!settings.enabled("arcane", Part::Menu));
    assert!(settings.enabled("other", Part::Menu));
}
