use omatheme::payload::{
    bin_name, check_app_source, check_lock_overlay, checkout_path, payload_profile,
    profile_destination, repository_kind, target_theme, InstallError, LauncherPayload, LockPayload,
    Manifest, Payload, QuickshellPayload, RepositoryKind,
};

fn manifest(theme: Option<&str>) -> Manifest {
    Manifest {
        payload: Payload {
            name: "spider".to_string(),
            description: None,
            theme: theme.map(str::to_string),
        },
        lock: None,
        launcher: None,
    }
}

#[test]
fn repositories_are_themes_or_payloads() {
    assert!(matches!(repository_kind(true, true), Ok(RepositoryKind::Payload)));
    assert!(matches!(repository_kind(false, true), Ok(RepositoryKind::Theme)));
    assert!(matches!(
        repository_kind(false, false),
        Err(InstallError::NeitherThemeNorPayload)
    ));
}

#[test]
fn target_theme_defaults_to_the_manifest() {
    assert_eq!(target_theme(Some("arcane"), &manifest(Some("x"))).ok().unwrap(), "arcane");
    assert_eq!(target_theme(None, &manifest(Some("x"))).ok().unwrap(), "x");
    match target_theme(None, &manifest(None)) {
        Err(InstallError::NoTheme { payload }) => assert_eq!(payload, "spider"),
        _ => panic!("expected NoTheme"),
    }
}

#[test]
fn payload_checks() {
    assert!(check_lock_overlay("lock", true, false).is_ok());
    assert!(matches!(
        check_lock_overlay("lock", false, false),
        Err(InstallError::NotADirectory { .. })
    ));
    match check_lock_overlay("lock", true, true) {
        Err(InstallError::ShipsService { overlay }) => assert_eq!(overlay, "lock"),
        _ => panic!("expected ShipsService"),
    }
    assert!(check_app_source("qs", true).is_ok());
    assert!(check_app_source("qs", false).is_err());
    assert_eq!(bin_name("/tmp/x/repo", "bin/launch.sh").ok().unwrap(), "launch.sh");
    assert!(matches!(bin_name("/tmp/x/repo", ".."), Err(InstallError::NoFileName { .. })));
    assert_eq!(checkout_path("/tmp/x"), "/tmp/x/repo");
}

#[test]
fn generated_profile() {
    let mut m = manifest(None);
    assert_eq!(
        payload_profile(&m, None),
        "# Written by `omatheme install`. Edit freely — it is not regenerated\n# unless you install the payload again.\n"
    );
    m.lock = Some(LockPayload { overlay: "qml".to_string() });
    m.launcher = Some(LauncherPayload {
        command: "spider-launch".to_string(),
        quickshell: Some(QuickshellPayload {
            source: "qs".to_string(),
            name: "spider \"web\"".to_string(),
        }),
        bin: Some("bin/spider".to_string()),
        autostart: Some(true),
        verbs: vec![
            ("apps".to_string(), "toggle".to_string()),
            ("menu".to_string(), "menu".to_string()),
        ],
    });
    let expected = "# Written by `omatheme install`. Edit freely — it is not regenerated\n# unless you install the payload again.\n\
\n[lock]\noverlay = \"lock\"\n\
\n[launcher]\ncommand = \"spider-launch\"\n\
quickshell = { source = \"launcher/quickshell\", name = \"spider \\\"web\\\"\" }\n\
bin = \"launcher/bin/spider\"\n\
autostart = true\n\
verbs = { apps = \"toggle\", menu = \"menu\" }\n";
    assert_eq!(payload_profile(&m, Some("spider")), expected);
}

#[test]
fn existing_profiles_are_not_clobbered() {
    assert_eq!(profile_destination("/t", false), "/t/profile.toml");
    assert_eq!(profile_destination("/t", true), "/t/profile.omatheme.toml");
}
