use omatheme::assoc::{keys_in_order, str_less};
use omatheme::profile::{AssetError, LoadedProfile, Profile, Wallpaper};

#[test]
fn missing_profile_restores_defaults() {
    let l = LoadedProfile::load("arcane", "/t/arcane", None);
    assert!(!l.present);
    assert!(l.profile.wallpaper.is_none());
    let p = Profile {
        wallpaper: Some(Wallpaper { default: "bg.jpg".to_string() }),
        ..Profile::default()
    };
    let l = LoadedProfile::load("arcane", "/t/arcane", Some(p));
    assert!(l.present);
    assert_eq!(l.profile.wallpaper.as_ref().unwrap().default, "bg.jpg");
    assert_eq!(l.theme, "arcane");
    assert_eq!(l.dir, "/t/arcane");
}

#[test]
fn assets_may_not_escape_the_theme() {
    let l = LoadedProfile::load("arcane", "/t/arcane", None);
    assert_eq!(l.asset_path("bg/a.jpg"), "/t/arcane/bg/a.jpg");
    assert_eq!(
        l.asset("bg/a.jpg", "/t/arcane", "/t/arcane/bg/a.jpg").ok().unwrap(),
        "/t/arcane/bg/a.jpg"
    );
    match l.asset("../x", "/t/arcane", "/t/x") {
        Err(AssetError::EscapesTheme { rel, resolved }) => {
            assert_eq!(rel, "../x");
            assert_eq!(resolved, "/t/x");
        }
        _ => panic!("expected an escape"),
    }
    assert!(l.asset("../arcane2", "/t/arcane", "/t/arcane2").is_err());
}

#[test]
fn keys_sort_as_strings_do() {
    assert!(str_less("apps", "menu"));
    assert!(str_less("bar", "bar.position"));
    assert!(!str_less("bar.position", "bar"));
    assert!(!str_less("x", "x"));
    assert!(str_less("Z", "a"));
    assert!(str_less("z", "é"));
    let ordered = vec![("a".to_string(), 1), ("a.b".to_string(), 2), ("b".to_string(), 3)];
    assert!(keys_in_order(&ordered));
    let twice = vec![("a".to_string(), 1), ("a".to_string(), 2)];
    assert!(!keys_in_order(&twice));
    let backwards = vec![("b".to_string(), 1), ("a".to_string(), 2)];
    assert!(!keys_in_order(&backwards));
}
