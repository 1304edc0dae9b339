//! A themed lock screen.
//!
//! On Quattro the lock screen is a Quickshell *service* plugin. `Service.qml`
//! holds the PAM and `ext-session-lock-v1` logic; `LockView.qml` and friends
//! are the purely visual layer. A theme overlays only the visual files, and
//! the clone is taken fresh from the installed Omarchy every time, so the
//! security logic is never frozen at the version a theme was authored
//! against.
use vstd::prelude::*;
use crate::paths::{join_path, spec_join};
use crate::text::{chars_of, push_char, push_str_chars, string_of, trim, trim_chars};

verus! {

/// Marker dropped inside a plugin clone omatheme created. Only clones
/// carrying it are ever deleted — a clone the user made by hand is left
/// alone.
pub open spec fn marker_name() -> Seq<char> {
    ".omatheme-managed"@
}

/// Why the lock screen could not be handled.
pub enum LockError {
    /// `$USER` is not set, so the clone directory is unknown.
    UserNotSet,
}

/// `omarchy plugin clone` always targets `<username>.<id>`: the clone lives
/// at `<omarchy config>/plugins/<user>.lock`. `user` is `$USER`, empty when it
/// is not set.
pub fn clone_dir(user: &str, omarchy_config: &str) -> (r: Result<String, LockError>)
    ensures
        user@.len() == 0 ==> r matches Err(LockError::UserNotSet),
        user@.len() > 0 ==> (r matches Ok(d) && d@ == spec_join(
            spec_join(omarchy_config@, "plugins"@),
            user@ + ".lock"@,
        )),
{
    let u = chars_of(user);
    if u.len() == 0 {
        return Err(LockError::UserNotSet);
    }
    let mut name = string_of(&u);
    push_str_chars(&mut name, &chars_of(".lock"));
    let plugins = join_path(omarchy_config, "plugins");
    Ok(join_path(plugins.as_str(), name.as_str()))
}

/// Where the marker of a clone lives.
pub fn marker_path(clone: &str) -> (p: String)
    ensures
        p@ == spec_join(clone@, marker_name()),
{
    join_path(clone, ".omatheme-managed")
}

/// The marker's contents: the theme that owns the clone.
pub fn marker_text(theme: &str) -> (t: String)
    ensures
        t@ == theme@ + seq!['\n'],
{
    let mut t = string_of(&chars_of(theme));
    push_char(&mut t, '\n');
    t
}

/// Which theme, if any, owns a clone, from its marker when it could be
/// read.
pub open spec fn spec_owner(marker: Option<Seq<char>>) -> Option<Seq<char>> {
    match marker {
        Some(m) => Some(trim(m)),
        None => None,
    }
}

pub fn owner_of(marker: Option<&str>) -> (r: Option<String>)
    ensures
        match r {
            Some(o) => spec_owner(match marker {
                Some(m) => Some(m@),
                None => None,
            }) == Some(o@),
            None => marker is None,
        },
{
    match marker {
        Some(m) => Some(string_of(&trim_chars(&chars_of(m)))),
        None => None,
    }
}

/// What to do with the lock screen.
#[derive(Debug, Clone, Copy, PartialEq, Eq, Structural)]
pub enum LockAction {
    /// Nothing to do.
    Nothing,
    /// Restore the stock lock screen: disable, delete and rescan our clone.
    RemoveOurs,
    /// A clone exists that omatheme did not create: leave the lock screen
    /// alone, with a warning.
    LeaveAlone,
    /// Take a fresh clone of the installed lock screen, overlay the theme's
    /// files and mark it as ours.
    Reclone,
    /// The theme's overlay is not a directory.
    OverlayNotADirectory,
}

/// Without a lock in the profile, the clone is removed only when omatheme
/// made it.
pub open spec fn spec_remove_if_ours(clone_exists: bool, owner: Option<Seq<char>>) -> LockAction {
    if !clone_exists || owner is None {
        LockAction::Nothing
    } else {
        LockAction::RemoveOurs
    }
}

pub fn remove_if_ours(clone_exists: bool, owner: Option<&str>) -> (a: LockAction)
    ensures
        a == spec_remove_if_ours(clone_exists, match owner {
            Some(o) => Some(o@),
            None => None,
        }),
{
    if !clone_exists || owner.is_none() {
        LockAction::Nothing
    } else {
        LockAction::RemoveOurs
    }
}

/// The lock decision: `declared` says whether the profile has an enabled
/// lock, `overlay_is_dir` whether its overlay is a directory, `owner` the
/// theme named by the clone's marker and `clone_exists` whether the clone
/// directory exists. A declared lock is cloned fresh on every application,
/// so the security logic is never frozen at an older version.
pub open spec fn spec_lock_plan(
    declared: bool,
    overlay_is_dir: bool,
    clone_exists: bool,
    owner: Option<Seq<char>>,
) -> LockAction {
    if !declared {
        spec_remove_if_ours(clone_exists, owner)
    } else if !overlay_is_dir {
        LockAction::OverlayNotADirectory
    } else if clone_exists && owner is None {
        LockAction::LeaveAlone
    } else {
        LockAction::Reclone
    }
}

/// Decide what the lock screen needs.
pub fn plan(
    declared: bool,
    overlay_is_dir: bool,
    clone_exists: bool,
    owner: Option<&str>,
) -> (a: LockAction)
    ensures
        a == spec_lock_plan(declared, overlay_is_dir, clone_exists, match owner {
            Some(o) => Some(o@),
            None => None,
        }),
{
    if !declared {
        return remove_if_ours(clone_exists, owner);
    }
    if !overlay_is_dir {
        return LockAction::OverlayNotADirectory;
    }
    if clone_exists && owner.is_none() {
        LockAction::LeaveAlone
    } else {
        LockAction::Reclone
    }
}

/// The bytes of a file, when it could be read.
pub open spec fn opt_bytes(b: Option<&[u8]>) -> Option<Seq<u8>> {
    match b {
        Some(x) => Some(x@),
        None => None,
    }
}

/// Copying an overlay onto a clone writes only the files that differ:
/// identical files are left untouched, since rewriting them would wake the
/// shell's file watcher for nothing. `from` and `to` are the bytes of the
/// overlay's file and of its target, when they could be read; two files that
/// both cannot be read count as identical.
pub open spec fn spec_copy_needed(from: Option<Seq<u8>>, to: Option<Seq<u8>>) -> bool {
    from != to
}

pub fn copy_needed(from: Option<&[u8]>, to: Option<&[u8]>) -> (b: bool)
    ensures
        b == spec_copy_needed(opt_bytes(from), opt_bytes(to)),
{
    match (from, to) {
        (Some(a), Some(c)) => {
            if a.len() != c.len() {
                return true;
            }
            let mut i: usize = 0;
            while i < a.len()
                invariant
                    from == Some(a),
                    to == Some(c),
                    i <= a.len(),
                    a.len() == c.len(),
                    forall|k: int| 0 <= k < i ==> a@[k] == c@[k],
                decreases a.len() - i,
            {
                if a[i] != c[i] {
                    return true;
                }
                i += 1;
            }
            assert(a@ =~= c@);
            false
        },
        (None, None) => false,
        _ => true,
    }
}

/// Copying an overlay again over the clone it was copied to writes nothing:
/// every file reads the same as its target.
pub proof fn law_recopy_writes_nothing(bytes: Seq<u8>)
    ensures
        !spec_copy_needed(Some(bytes), Some(bytes)),
{
}

/// A clone the user made by hand (one without our marker) is never deleted
/// nor replaced.
pub proof fn law_foreign_clone_is_left_alone(declared: bool, overlay_is_dir: bool)
    ensures
        ({
            let a = spec_lock_plan(declared, overlay_is_dir, true, None);
            a != LockAction::RemoveOurs && a != LockAction::Reclone
        }),
{
}

/// A declared lock is taken fresh from the installed Omarchy on every
/// application, also when the clone is already this theme's: only a clone
/// the user made by hand stops it.
pub proof fn law_lock_taken_fresh(clone_exists: bool, owner: Option<Seq<char>>)
    requires
        !(clone_exists && owner is None),
    ensures
        spec_lock_plan(true, true, clone_exists, owner) == LockAction::Reclone,
{
}

} // verus!
