//! The Omarchy `theme-set` hook: a tiny shell stub calling this binary, so
//! upgrading omatheme never requires reinstalling the hook.
use vstd::prelude::*;
use crate::paths::{join_path, spec_join};
use crate::text::{chars_of, push_str_chars};

verus! {

fn push_str(s: &mut String, t: &str)
    ensures
        final(s)@ == old(s)@ + t@,
{
    push_str_chars(s, &chars_of(t));
}

/// Where the hook is installed.
pub fn hook_path(omarchy_config: &str) -> (p: (String, String))
    ensures
        p.0@ == spec_join(omarchy_config@, "hooks/theme-set.d"@),
        p.1@ == spec_join(spec_join(omarchy_config@, "hooks/theme-set.d"@), "omatheme.hook"@),
{
    let dir = join_path(omarchy_config, "hooks/theme-set.d");
    let hook = join_path(dir.as_str(), "omatheme.hook");
    (dir, hook)
}

/// The hook script for the binary at `exe`: `$1` is the theme slug that
/// `omarchy-hook` passes.
pub fn hook_script(exe: &str) -> (s: String)
    ensures
        s@ == "#!/bin/bash\n# Installed by `omatheme install-hook`.\n# $1 is the theme slug passed by omarchy-hook.\nexec "@
            + exe@ + " hook \"$1\"\n"@,
{
    let mut s = String::new();
    push_str(
        &mut s,
        "#!/bin/bash\n# Installed by `omatheme install-hook`.\n# $1 is the theme slug passed by omarchy-hook.\nexec ",
    );
    push_str(&mut s, exe);
    push_str(&mut s, " hook \"$1\"\n");
    s
}

} // verus!
