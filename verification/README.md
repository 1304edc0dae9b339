# omatheme

Theme profiles for Omarchy: a `profile.toml` inside a theme directory
carries what a theme is beyond its colours (wallpaper, font, shell layout,
menu, lock screen, launcher, post commands), and `omatheme` applies it on
every theme switch.

The decisions behind each step are a library verified with Verus; the
command-line program around it reads files and the environment, hands the
values to the library, and carries out what it decides.

## Layout

- `src/` — the verified library.
  - `text` — character-level helpers (trimming, lines, splitting).
  - `assoc` — association lists keyed by strings.
  - `paths` — theme slugs, theme directories, paths as strings.
  - `json` — `shell.json` documents, dotted-key patches, the baseline rule.
  - `settings` — per-machine opt-outs of profile parts.
  - `profile` — the shape of `profile.toml` and theme-relative assets.
  - `apply` — the idempotence decisions of each step.
  - `lock`, `launcher` — the themed lock screen and launcher.
  - `doctor` — colour literals that duplicate a theme colour.
  - `payload`, `scaffold`, `hook` — `install`, `new` and `install-hook`.
- `app/` — the `omatheme` command: argument parsing, TOML and JSON
  parsing, file system and process work.
- `tests/` — tests of the library on concrete values.

The library states its promises as `ensures` clauses and as `law_*` proof
functions: among them that applying a theme twice rewrites nothing the
second time (the lock screen alone is taken fresh on every application),
that `shell.json` is rebuilt from its baseline whatever the previous theme
wrote, and that per-theme settings win over global ones.
