use omatheme::json::{set_dotted, Json, PatchError};

fn s(text: &str) -> Json {
    Json::Str(text.to_string())
}

fn n(text: &str) -> Json {
    Json::Number(text.to_string())
}

fn obj(entries: Vec<(&str, Json)>) -> Json {
    Json::Object(entries.into_iter().map(|(k, v)| (k.to_string(), v)).collect())
}

#[test]
fn sets_nested_key() {
    let mut doc = obj(vec![("bar", obj(vec![("position", s("top"))]))]);
    set_dotted(&mut doc, "bar.position", s("left")).ok().unwrap();
    assert_eq!(doc.get("bar").unwrap().get("position"), Some(&s("left")));
}

#[test]
fn creates_missing_parents() {
    let mut doc = obj(vec![]);
    set_dotted(&mut doc, "idle.lock", n("300")).ok().unwrap();
    assert_eq!(doc.get("idle").unwrap().get("lock"), Some(&n("300")));
}

#[test]
fn refuses_to_descend_into_a_scalar() {
    let mut doc = obj(vec![("bar", n("1"))]);
    assert!(set_dotted(&mut doc, "bar.position", s("left")).is_err());
}

#[test]
fn refusal_leaves_the_document_alone() {
    let mut doc = obj(vec![("bar", n("1"))]);
    let before = obj(vec![("bar", n("1"))]);
    match set_dotted(&mut doc, "bar.position.x", s("left")) {
        Err(PatchError::NotAnObject { dotted, part }) => {
            assert_eq!(dotted, "bar.position.x");
            assert_eq!(part, "position");
        }
        _ => panic!("expected NotAnObject"),
    }
    assert_eq!(doc, before);
}

#[test]
fn top_level_scalar_is_not_a_parent() {
    let mut doc = n("3");
    match set_dotted(&mut doc, "bar", s("x")) {
        Err(PatchError::ParentNotObject { dotted }) => assert_eq!(dotted, "bar"),
        _ => panic!("expected ParentNotObject"),
    }
}

#[test]
fn setting_twice_changes_nothing() {
    let mut doc = obj(vec![]);
    set_dotted(&mut doc, "a.b.c", s("v")).ok().unwrap();
    let mut again = doc.copy();
    set_dotted(&mut again, "a.b.c", s("v")).ok().unwrap();
    assert_eq!(again, doc);
}

use omatheme::json::{carry_runtime_keys, needs_write, shell_document};

fn arr(items: Vec<Json>) -> Json {
    Json::Array(items)
}

#[test]
fn shell_document_patches_the_baseline_and_keeps_runtime_keys() {
    let baseline = obj(vec![
        ("bar", obj(vec![("transparent", Json::Bool(false))])),
        ("plugins", arr(vec![s("old")])),
    ]);
    let live = obj(vec![
        ("bar", obj(vec![("transparent", Json::Bool(true))])),
        ("plugins", arr(vec![s("me.lock")])),
        ("disabledPlugins", arr(vec![s("omarchy.lock")])),
    ]);
    let patch = vec![("idle.lock".to_string(), n("600"))];
    let doc = shell_document(baseline, Some(&live), &patch).ok().unwrap();
    assert_eq!(
        doc.get("bar").unwrap().get("transparent"),
        Some(&Json::Bool(false))
    );
    assert_eq!(doc.get("plugins"), Some(&arr(vec![s("me.lock")])));
    assert_eq!(doc.get("disabledPlugins"), Some(&arr(vec![s("omarchy.lock")])));
    assert_eq!(doc.get("idle").unwrap().get("lock"), Some(&n("600")));
}

#[test]
fn runtime_keys_missing_from_live_are_dropped() {
    let mut doc = obj(vec![("plugins", arr(vec![])), ("a", n("1"))]);
    carry_runtime_keys(&mut doc, &obj(vec![]));
    assert_eq!(doc, obj(vec![("a", n("1"))]));
}

#[test]
fn shell_patch_error_names_the_key() {
    let baseline = obj(vec![("bar", n("1"))]);
    let patch = vec![("bar.position".to_string(), s("left"))];
    match shell_document(baseline, None, &patch) {
        Err(PatchError::ParentNotObject { dotted }) => assert_eq!(dotted, "bar.position"),
        _ => panic!("expected ParentNotObject"),
    }
}

#[test]
fn documents_compare_as_maps() {
    let a = obj(vec![("x", n("1")), ("y", arr(vec![s("a")]))]);
    let b = obj(vec![("y", arr(vec![s("a")])), ("x", n("1"))]);
    assert!(a.same_as(&b));
    assert!(!needs_write(Some(&b), &a));
    assert!(needs_write(None, &a));
    let c = obj(vec![("x", n("1.0")), ("y", arr(vec![s("a")]))]);
    assert!(!a.same_as(&c));
    assert!(needs_write(Some(&c), &a));
}

#[test]
fn applying_the_document_again_changes_nothing() {
    let baseline = obj(vec![("bar", obj(vec![("position", s("top"))]))]);
    let patch = vec![
        ("bar.position".to_string(), s("left")),
        ("idle.lock".to_string(), n("300")),
    ];
    let live = obj(vec![("plugins", arr(vec![s("x")]))]);
    let first = shell_document(baseline.copy(), Some(&live), &patch).ok().unwrap();
    let second = shell_document(baseline, Some(&first), &patch).ok().unwrap();
    assert_eq!(first, second);
    assert!(!needs_write(Some(&first), &second));
}

#[test]
fn reapplying_a_patch_on_runtime_keys_writes_nothing() {
    // The baseline has `plugins`, the live file does not: the first run drops
    // it and the patch recreates it at the end, the second run updates it in
    // place. The documents differ in key order only.
    let baseline = obj(vec![
        ("plugins", obj(vec![("old", n("1"))])),
        ("bar", obj(vec![])),
    ]);
    let live = obj(vec![("bar", obj(vec![]))]);
    let patch = vec![
        ("plugins".to_string(), obj(vec![("a", n("1"))])),
        ("plugins.b".to_string(), n("2")),
    ];
    let first = shell_document(baseline.copy(), Some(&live), &patch).ok().unwrap();
    let second = shell_document(baseline, Some(&first), &patch).ok().unwrap();
    assert_ne!(first, second);
    assert!(first.same_as(&second));
    assert!(!needs_write(Some(&first), &second));
    assert_eq!(
        second.get("plugins"),
        Some(&obj(vec![("a", n("1")), ("b", n("2"))]))
    );
}

#[test]
fn signed_zeros_are_the_same_number() {
    let live = obj(vec![("x", n("-0.0"))]);
    let doc = obj(vec![("x", n("0.0"))]);
    assert!(live.same_as(&doc));
    assert!(!needs_write(Some(&live), &doc));
    assert!(!n("0").same_as(&n("0.0")));
    assert!(!n("-0.0").same_as(&n("-0")));
    assert!(omatheme::json::same_number_text("1.5", "1.5"));
    assert!(!omatheme::json::same_number_text("1.5", "1.50"));
}
