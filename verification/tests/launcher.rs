use omatheme::launcher::{current_command, current_verbs, dispatch, plan, state_file, translate, verbs_text};
use omatheme::profile::Launcher;

fn strings(items: &[&str]) -> Vec<String> {
    items.iter().map(|s| s.to_string()).collect()
}

fn pairs(items: &[(&str, &str)]) -> Vec<(String, String)> {
    items.iter().map(|(a, b)| (a.to_string(), b.to_string())).collect()
}

fn launcher(command: &str, autostart: Option<bool>, verbs: &[(&str, &str)]) -> Launcher {
    Launcher {
        command: command.to_string(),
        quickshell: None,
        bin: None,
        autostart,
        verbs: pairs(verbs),
    }
}

#[test]
fn current_command_is_the_trimmed_state_file() {
    assert_eq!(current_command(Some("qs-launcher\n")).unwrap(), "qs-launcher");
    assert!(current_command(Some("  \n")).is_none());
    assert!(current_command(None).is_none());
}

#[test]
fn omarchy_menu_verbs_are_built_in() {
    assert_eq!(current_verbs("", None), pairs(&[("menu", "toggle"), ("apps", "toggle apps")]));
    assert_eq!(
        current_verbs("", Some("omarchy-menu")),
        pairs(&[("menu", "toggle"), ("apps", "toggle apps")])
    );
    assert!(current_verbs("", Some("other")).is_empty());
    assert_eq!(
        current_verbs("menu\tmenu\nbad line\napps\ttoggle\nmenu\tshow\n", Some("other")),
        pairs(&[("menu", "show"), ("apps", "toggle")])
    );
}

#[test]
fn verbs_file_round_trip() {
    let verbs = pairs(&[("apps", "toggle apps"), ("menu", "menu")]);
    let text = verbs_text(&verbs);
    assert_eq!(text, "apps\ttoggle apps\nmenu\tmenu\n");
    assert_eq!(current_verbs(&text, Some("qs")), verbs);
}

#[test]
fn translation_maps_the_first_verb_only() {
    let verbs = pairs(&[("apps", "  toggle\tapps "), ("menu", "toggle")]);
    assert_eq!(
        translate(&strings(&["apps", "apps", "x"]), &verbs),
        strings(&["toggle", "apps", "apps", "x"])
    );
    assert_eq!(translate(&strings(&["other", "menu"]), &verbs), strings(&["other", "menu"]));
    assert!(translate(&strings(&[]), &verbs).is_empty());
}

#[test]
fn dispatch_defaults_to_omarchy_menu() {
    let d = dispatch(&strings(&["apps"]), None, "");
    assert_eq!(d.command, "omarchy-menu");
    assert_eq!(d.args, strings(&["toggle", "apps"]));
    let d = dispatch(&strings(&["menu"]), Some("qs-launch\n"), "menu\tshow menu\n");
    assert_eq!(d.command, "qs-launch");
    assert_eq!(d.args, strings(&["show", "menu"]));
}

#[test]
fn plan_switches_only_when_the_command_changes() {
    let l = launcher("qs-launch", Some(true), &[("menu", "show")]);
    let p = plan(Some("omarchy-menu"), Some(&l));
    assert!(p.switch);
    assert!(p.stop_previous.is_none());
    assert_eq!(p.state_text, "qs-launch\n");
    assert_eq!(p.verbs_text, "menu\tshow\n");
    assert!(p.start);

    let again = plan(current_command(Some(&p.state_text)).as_deref(), Some(&l));
    assert!(!again.switch);
    // An autostarting launcher is started after every application.
    assert!(again.start);
    let quiet = launcher("qs-launch", None, &[]);
    assert!(!plan(Some("qs-launch"), Some(&quiet)).start);
    let menu = launcher("omarchy-menu", Some(true), &[]);
    assert!(!plan(None, Some(&menu)).start);

    let back = plan(Some("qs-launch"), None);
    assert!(back.switch);
    assert_eq!(back.command, "omarchy-menu");
    assert_eq!(back.stop_previous.unwrap(), "qs-launch");
    assert!(!back.start);
    assert_eq!(back.verbs_text, "");
}

#[test]
fn launcher_state_files() {
    let (state, verbs) = state_file("/home/u");
    assert_eq!(state, "/home/u/.local/state/omatheme/launcher");
    assert_eq!(verbs, "/home/u/.local/state/omatheme/launcher.verbs");
}
