//! Payloads: the non-colour half of a look — a lock screen, a launcher —
//! living in its own repository so its author keeps maintaining it there.
//! The manifest at the repository's root, `omatheme.toml`, says which paths
//! hold what, so `omatheme install` can graft it onto a theme without every
//! repository inventing its own install script.
use vstd::prelude::*;
use crate::assoc::{pairs_view, string_keys_ascending};
use crate::paths::{file_name, join_path, spec_file_name, spec_join};
use crate::text::{chars_of, push_str_chars, string_of};

verus! {

#[derive(Debug)]
pub struct Manifest {
    pub payload: Payload,
    pub lock: Option<LockPayload>,
    pub launcher: Option<LauncherPayload>,
}

#[derive(Debug)]
pub struct Payload {
    pub name: String,
    pub description: Option<String>,
    /// Theme this payload was written for. Used as the default target, so a
    /// matching theme needs no second argument.
    pub theme: Option<String>,
}

#[derive(Debug)]
pub struct LockPayload {
    /// Directory of presentational QML, relative to the repository root.
    /// `Service.qml` must not be in it: omatheme reclones that from the
    /// running Omarchy on every theme switch.
    pub overlay: String,
}

#[derive(Debug)]
pub struct LauncherPayload {
    pub command: String,
    pub quickshell: Option<QuickshellPayload>,
    pub bin: Option<String>,
    pub autostart: Option<bool>,
    /// Verb mapping, in key order.
    pub verbs: Vec<(String, String)>,
}

#[derive(Debug)]
pub struct QuickshellPayload {
    pub source: String,
    pub name: String,
}

// ---------------------------------------------------------------------------
// Quoting
// ---------------------------------------------------------------------------

/// The text std's `Debug` formatting gives a string: the string in double
/// quotes, with quotes, backslashes and control characters escaped.
pub uninterp spec fn debug_quoted(s: Seq<char>) -> Seq<char>;

/// Formats `s` with `{:?}` (std's `Debug` for `str`); its escaping rules are
/// named here rather than restated.
#[verifier::external_body]
fn debug_str(s: &str) -> (r: String)
    ensures
        r@ == debug_quoted(s@),
{
    format!("{:?}", s)
}

fn push_str(s: &mut String, t: &str)
    ensures
        final(s)@ == old(s)@ + t@,
{
    push_str_chars(s, &chars_of(t));
}

// ---------------------------------------------------------------------------
// Decisions
// ---------------------------------------------------------------------------

/// The repository inside a checkout's temporary directory.
pub fn checkout_path(base: &str) -> (p: String)
    ensures
        p@ == spec_join(base@, "repo"@),
{
    join_path(base, "repo")
}

/// Why a payload could not be installed.
pub enum InstallError {
    /// The repository holds neither `colors.toml` nor `omatheme.toml`.
    NeitherThemeNorPayload,
    /// The manifest names no theme and none was given; the payload's name.
    NoTheme { payload: String },
    /// A path of the manifest is not a directory in the payload.
    NotADirectory { path: String },
    /// The lock overlay ships `Service.qml`; the overlay's path.
    ShipsService { overlay: String },
    /// The launcher script's path has no file name.
    NoFileName { path: String },
}

/// What a cloned repository is.
#[derive(Debug, Clone, Copy, PartialEq, Eq, Structural)]
pub enum RepositoryKind {
    /// A theme: handed over to `omarchy-theme-install`.
    Theme,
    /// A payload: grafted onto a theme.
    Payload,
}

/// One entry point for both halves: a repository holding `colors.toml` is a
/// theme and goes to `omarchy theme install`; one holding `omatheme.toml` is a
/// payload and gets grafted onto a theme.
pub fn repository_kind(has_manifest: bool, has_colors: bool) -> (r: Result<
    RepositoryKind,
    InstallError,
>)
    ensures
        has_manifest ==> r matches Ok(RepositoryKind::Payload),
        !has_manifest && has_colors ==> r matches Ok(RepositoryKind::Theme),
        !has_manifest && !has_colors ==> r matches Err(InstallError::NeitherThemeNorPayload),
{
    if !has_manifest {
        if !has_colors {
            return Err(InstallError::NeitherThemeNorPayload);
        }
        return Ok(RepositoryKind::Theme);
    }
    Ok(RepositoryKind::Payload)
}

/// The theme a payload goes to: the one given, else the one its manifest
/// names.
pub fn target_theme(theme: Option<&str>, manifest: &Manifest) -> (r: Result<String, InstallError>)
    ensures
        match theme {
            Some(t) => r matches Ok(s) && s@ == t@,
            None => match manifest.payload.theme {
                Some(t) => r matches Ok(s) && s@ == t@,
                None => r matches Err(InstallError::NoTheme { payload }) && payload@
                    == manifest.payload.name@,
            },
        },
{
    match theme {
        Some(t) => Ok(string_of(&chars_of(t))),
        None => match &manifest.payload.theme {
            Some(t) => Ok(string_of(&chars_of(t.as_str()))),
            None => Err(
                InstallError::NoTheme { payload: string_of(&chars_of(manifest.payload.name.as_str())) },
            ),
        },
    }
}

/// The lock overlay must be a directory without `Service.qml`: a payload
/// ships the presentational files only, the service comes from the running
/// Omarchy.
pub fn check_lock_overlay(overlay: &str, is_dir: bool, has_service: bool) -> (r: Result<
    (),
    InstallError,
>)
    ensures
        !is_dir ==> (r matches Err(InstallError::NotADirectory { path }) && path@ == overlay@),
        is_dir && has_service ==> (r matches Err(InstallError::ShipsService { overlay: o }) && o@
            == overlay@),
        is_dir && !has_service ==> r is Ok,
{
    if !is_dir {
        return Err(InstallError::NotADirectory { path: string_of(&chars_of(overlay)) });
    }
    if has_service {
        return Err(InstallError::ShipsService { overlay: string_of(&chars_of(overlay)) });
    }
    Ok(())
}

/// A launcher app source must be a directory.
pub fn check_app_source(source: &str, is_dir: bool) -> (r: Result<(), InstallError>)
    ensures
        !is_dir ==> (r matches Err(InstallError::NotADirectory { path }) && path@ == source@),
        is_dir ==> r is Ok,
{
    if !is_dir {
        return Err(InstallError::NotADirectory { path: string_of(&chars_of(source)) });
    }
    Ok(())
}

/// The file name of the launcher script `bin` within the checkout.
pub fn bin_name(checkout: &str, bin: &str) -> (r: Result<String, InstallError>)
    ensures
        match spec_file_name(spec_join(checkout@, bin@)) {
            Some(n) => r matches Ok(s) && s@ == n,
            None => r matches Err(InstallError::NoFileName { path }) && path@ == bin@,
        },
{
    let source = join_path(checkout, bin);
    match file_name(source.as_str()) {
        Some(n) => Ok(n),
        None => Err(InstallError::NoFileName { path: string_of(&chars_of(bin)) }),
    }
}

// ---------------------------------------------------------------------------
// The generated profile
// ---------------------------------------------------------------------------

pub open spec fn profile_header() -> Seq<char> {
    "# Written by `omatheme install`. Edit freely — it is not regenerated\n# unless you install the payload again.\n"@
}

/// `verb = "mapped", ...` for an inline table.
pub open spec fn verb_pairs(vs: Seq<(Seq<char>, Seq<char>)>) -> Seq<char>
    decreases vs.len(),
{
    if vs.len() == 0 {
        seq![]
    } else if vs.len() == 1 {
        vs[0].0 + " = "@ + debug_quoted(vs[0].1)
    } else {
        verb_pairs(vs.drop_last()) + ", "@ + vs.last().0 + " = "@ + debug_quoted(vs.last().1)
    }
}

/// The `[launcher]` table for a launcher payload; `bin` is the file name of
/// its script.
pub open spec fn launcher_section(l: LauncherPayload, bin: Option<Seq<char>>) -> Seq<char> {
    "\n[launcher]\n"@ + "command = "@ + debug_quoted(l.command@) + "\n"@ + (match l.quickshell {
        Some(app) => "quickshell = { source = \"launcher/quickshell\", name = "@ + debug_quoted(
            app.name@,
        ) + " }\n"@,
        None => seq![],
    }) + (match (l.bin, bin) {
        (Some(_), Some(n)) => "bin = \"launcher/bin/"@ + n + "\"\n"@,
        _ => seq![],
    }) + (if l.autostart == Some(true) {
        "autostart = true\n"@
    } else {
        seq![]
    }) + (if l.verbs.len() > 0 {
        "verbs = { "@ + verb_pairs(pairs_view(l.verbs@)) + " }\n"@
    } else {
        seq![]
    })
}

/// The `profile.toml` written for a payload: a header, a `[lock]` table
/// pointing at `lock/`, and a `[launcher]` table pointing at `launcher/`.
pub open spec fn spec_payload_profile(m: Manifest, bin: Option<Seq<char>>) -> Seq<char> {
    profile_header() + (if m.lock is Some {
        "\n[lock]\noverlay = \"lock\"\n"@
    } else {
        seq![]
    }) + match m.launcher {
        Some(l) => launcher_section(l, bin),
        None => seq![],
    }
}

/// `m` with its launcher's `autostart` set to `a`.
pub open spec fn with_autostart(m: Manifest, a: Option<bool>) -> Manifest {
    match m.launcher {
        Some(l) => Manifest { launcher: Some(LauncherPayload { autostart: a, ..l }), ..m },
        None => m,
    }
}

/// The generated profile starts the launcher exactly when the payload asks
/// for it: with `autostart = false` or no `autostart` it is the same text,
/// and with `autostart = true` it is that text with the line
/// `autostart = true` put in.
pub proof fn law_autostart_line(m: Manifest, bin: Option<Seq<char>>)
    requires
        m.launcher is Some,
    ensures
        spec_payload_profile(with_autostart(m, Some(false)), bin) == spec_payload_profile(
            with_autostart(m, None),
            bin,
        ),
        ({
            let without = spec_payload_profile(with_autostart(m, None), bin);
            exists|i: int|
                0 <= i <= without.len() && spec_payload_profile(with_autostart(m, Some(true)), bin)
                    == without.take(i) + "autostart = true\n"@ + without.skip(i)
        }),
{
    let l = m.launcher->0;
    let lt = LauncherPayload { autostart: Some(true), ..l };
    let ln = LauncherPayload { autostart: None, ..l };
    let head = profile_header() + (if m.lock is Some {
        "\n[lock]\noverlay = \"lock\"\n"@
    } else {
        seq![]
    });
    let before = "\n[launcher]\n"@ + "command = "@ + debug_quoted(l.command@) + "\n"@ + (
    match l.quickshell {
        Some(app) => "quickshell = { source = \"launcher/quickshell\", name = "@ + debug_quoted(
            app.name@,
        ) + " }\n"@,
        None => seq![],
    }) + (match (l.bin, bin) {
        (Some(_), Some(n)) => "bin = \"launcher/bin/"@ + n + "\"\n"@,
        _ => seq![],
    });
    let after = if l.verbs.len() > 0 {
        "verbs = { "@ + verb_pairs(pairs_view(l.verbs@)) + " }\n"@
    } else {
        seq![]
    };
    let without = spec_payload_profile(with_autostart(m, None), bin);
    assert(launcher_section(ln, bin) == before + seq![] + after);
    assert(without =~= head + before + after);
    assert(launcher_section(lt, bin) == before + "autostart = true\n"@ + after);
    let i = (head + before).len() as int;
    assert(without.take(i) =~= head + before);
    assert(without.skip(i) =~= after);
    assert(spec_payload_profile(with_autostart(m, Some(true)), bin) =~= without.take(i)
        + "autostart = true\n"@ + without.skip(i));
}

fn push_verb_pairs(s: &mut String, verbs: &Vec<(String, String)>)
    ensures
        final(s)@ == old(s)@ + verb_pairs(pairs_view(verbs@)),
{
    let mut i: usize = 0;
    while i < verbs.len()
        invariant
            i <= verbs.len(),
            s@ == old(s)@ + verb_pairs(pairs_view(verbs@).take(i as int)),
        decreases verbs.len() - i,
    {
        let ghost next = pairs_view(verbs@).take(i + 1);
        assert(next.drop_last() =~= pairs_view(verbs@).take(i as int));
        assert(next.last() == (verbs@[i as int].0@, verbs@[i as int].1@));
        if i > 0 {
            push_str(s, ", ");
        }
        push_str(s, verbs[i].0.as_str());
        push_str(s, " = ");
        let q = debug_str(verbs[i].1.as_str());
        push_str(s, q.as_str());
        i += 1;
        if i == 1 {
            assert(next[0] == next.last());
            assert(s@ =~= old(s)@ + verb_pairs(next));
        } else {
            assert(s@ =~= old(s)@ + verb_pairs(next));
        }
    }
    assert(pairs_view(verbs@).take(verbs.len() as int) =~= pairs_view(verbs@));
}

fn quickshell_line(l: &LauncherPayload) -> (t: String)
    ensures
        t@ == match l.quickshell {
            Some(app) => "quickshell = { source = \"launcher/quickshell\", name = "@ + debug_quoted(
                app.name@,
            ) + " }\n"@,
            None => seq![],
        },
{
    let mut t = String::new();
    match &l.quickshell {
        Some(app) => {
            push_str(&mut t, "quickshell = { source = \"launcher/quickshell\", name = ");
            let n = debug_str(app.name.as_str());
            push_str(&mut t, n.as_str());
            push_str(&mut t, " }\n");
        },
        None => {},
    }
    t
}

fn bin_line(l: &LauncherPayload, bin: Option<&str>) -> (t: String)
    ensures
        t@ == match (l.bin, match bin {
            Some(b) => Some(b@),
            None => None,
        }) {
            (Some(_), Some(n)) => "bin = \"launcher/bin/"@ + n + "\"\n"@,
            _ => seq![],
        },
{
    let mut t = String::new();
    match (&l.bin, bin) {
        (Some(_), Some(n)) => {
            push_str(&mut t, "bin = \"launcher/bin/");
            push_str(&mut t, n);
            push_str(&mut t, "\"\n");
        },
        _ => {},
    }
    t
}

fn verbs_line(l: &LauncherPayload) -> (t: String)
    ensures
        t@ == (if l.verbs.len() > 0 {
            "verbs = { "@ + verb_pairs(pairs_view(l.verbs@)) + " }\n"@
        } else {
            seq![]
        }),
{
    let mut t = String::new();
    if l.verbs.len() > 0 {
        push_str(&mut t, "verbs = { ");
        push_verb_pairs(&mut t, &l.verbs);
        push_str(&mut t, " }\n");
    }
    t
}

fn launcher_text(l: &LauncherPayload, bin: Option<&str>) -> (t: String)
    ensures
        t@ == launcher_section(*l, match bin {
            Some(b) => Some(b@),
            None => None,
        }),
{
    let mut t = String::new();
    push_str(&mut t, "\n[launcher]\n");
    push_str(&mut t, "command = ");
    let c = debug_str(l.command.as_str());
    push_str(&mut t, c.as_str());
    push_str(&mut t, "\n");
    let q = quickshell_line(l);
    push_str(&mut t, q.as_str());
    let b = bin_line(l, bin);
    push_str(&mut t, b.as_str());
    let autostart = match l.autostart {
        Some(v) => v,
        None => false,
    };
    if autostart {
        push_str(&mut t, "autostart = true\n");
    }
    let v = verbs_line(l);
    push_str(&mut t, v.as_str());
    t
}

/// The profile generated for a payload. `bin` is the file name of its
/// launcher script, when it has one.
pub fn payload_profile(manifest: &Manifest, bin: Option<&str>) -> (p: String)
    requires
        manifest.launcher matches Some(l) ==> string_keys_ascending(l.verbs@),
    ensures
        p@ == spec_payload_profile(*manifest, match bin {
            Some(b) => Some(b@),
            None => None,
        }),
{
    let mut p = String::new();
    push_str(
        &mut p,
        "# Written by `omatheme install`. Edit freely — it is not regenerated\n# unless you install the payload again.\n",
    );
    if manifest.lock.is_some() {
        push_str(&mut p, "\n[lock]\noverlay = \"lock\"\n");
    }
    match &manifest.launcher {
        Some(l) => {
            let t = launcher_text(l, bin);
            push_str(&mut p, t.as_str());
        },
        None => {},
    }
    p
}

/// Where the generated profile goes: `profile.toml`, unless the theme has
/// one already. A theme may already pin its wallpaper or patch the shell; the
/// author's file is not clobbered, `profile.omatheme.toml` is written beside
/// it instead.
pub fn profile_destination(theme_dir: &str, profile_exists: bool) -> (p: String)
    ensures
        profile_exists ==> p@ == spec_join(theme_dir@, "profile.omatheme.toml"@),
        !profile_exists ==> p@ == spec_join(theme_dir@, "profile.toml"@),
{
    if profile_exists {
        join_path(theme_dir, "profile.omatheme.toml")
    } else {
        join_path(theme_dir, "profile.toml")
    }
}

} // verus!
