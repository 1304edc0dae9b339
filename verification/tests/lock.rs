use omatheme::lock::{clone_dir, copy_needed, marker_path, marker_text, owner_of, plan, remove_if_ours, LockAction, LockError};

#[test]
fn clone_dir_needs_a_user() {
    assert_eq!(
        clone_dir("joris", "/c/omarchy").ok().unwrap(),
        "/c/omarchy/plugins/joris.lock"
    );
    assert!(matches!(clone_dir("", "/c/omarchy"), Err(LockError::UserNotSet)));
}

#[test]
fn marker_names_the_owner() {
    assert_eq!(marker_path("/p/joris.lock"), "/p/joris.lock/.omatheme-managed");
    assert_eq!(marker_text("arcane"), "arcane\n");
    assert_eq!(owner_of(Some("arcane\n")).unwrap(), "arcane");
    assert!(owner_of(None).is_none());
}

#[test]
fn only_our_clones_are_removed() {
    assert_eq!(remove_if_ours(true, Some("arcane")), LockAction::RemoveOurs);
    assert_eq!(remove_if_ours(true, None), LockAction::Nothing);
    assert_eq!(remove_if_ours(false, Some("arcane")), LockAction::Nothing);
}

#[test]
fn lock_decisions() {
    assert_eq!(plan(false, false, true, Some("x")), LockAction::RemoveOurs);
    assert_eq!(plan(true, false, true, Some("x")), LockAction::OverlayNotADirectory);
    assert_eq!(plan(true, true, true, None), LockAction::LeaveAlone);
    assert_eq!(plan(true, true, true, Some("other")), LockAction::Reclone);
    assert_eq!(plan(true, true, false, None), LockAction::Reclone);
    // The clone is taken fresh every time, also when it is this theme's.
    let owner = owner_of(Some(&marker_text("arcane")));
    assert_eq!(plan(true, true, true, owner.as_deref()), LockAction::Reclone);
}

#[test]
fn only_differing_files_are_copied() {
    assert!(!copy_needed(Some(&b"same"[..]), Some(&b"same"[..])));
    assert!(copy_needed(Some(&b"new"[..]), Some(&b"old"[..])));
    assert!(copy_needed(Some(&b"new"[..]), Some(&b"ne"[..])));
    assert!(copy_needed(Some(&b"new"[..]), None));
    assert!(copy_needed(None, Some(&b"old"[..])));
    assert!(!copy_needed(None, None));
}
