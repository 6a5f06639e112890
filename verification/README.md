# code-profile-manager

Declarative management of a VS Code-family editor's profiles: a TOML config
describes the desired settings and extensions of each profile, layered from
`[global]`, reusable `[groups.*]` and per-profile overrides.

The library (`src/`) is written in Verus and verified:

- `config` — the config model and its layering (`Config::resolve`), with the
  precedence rules proved as lemmas: `law_profile_settings_win`,
  `law_global_settings_reach_profiles`, `law_later_group_wins`,
  `law_excluded_extensions_absent`, `law_profile_extensions_present`,
  `law_global_extensions_present`, `law_pin_ignored`, and the consolidation
  rule `law_hoist_shared_extension` (moving an extension that every profile
  lists into `[global]` leaves the resolved state unchanged).
- `extension` — membership as recorded in `extensions.json` entries: reading,
  removing, pinning, merging pool or vendored entries, and choosing the most
  informative line of editor CLI output.
- `vsix` — package metadata, version keys and the choice among vendored
  `.vsix` candidates (`select`).
- `keymap` — string-keyed maps and sets kept in `String` order.
- `json`, `jsonc`, `text`, `ui`, `product` — the JSON model and the text
  helpers the above rely on.

`app/` holds the file, archive, process and terminal plumbing (serde, TOML,
JSONC, zip, dialoguer) around the library.
