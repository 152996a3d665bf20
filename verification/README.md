# codex_patch

The verified core of the Codex desktop manager's Windows Chinese patch, its
download-mirror fallback and its bundled offline resources, written in Verus.

## Layout

- `src/` — the library, verified by Verus.
  - `asar`, `header`, `order`, `rewrite`: the ASAR archive's framing, its
    header's file tree, and the plan of the rewritten archive (new header,
    payload copied around the replaced files).
  - `layout`, `readback`: what the plan guarantees — every file of the
    rewritten archive lies at the offset its new header gives, with its new
    content, and reading the rewritten header lists the relocated files.
  - `menu_patch`, `locale_patch`, `i18n_patch`, `analysis`: the three
    bundle patches (menu translator, native zh-CN strings, renderer
    language gate) and the decision of what an archive needs; patching is
    idempotent and a patched archive is found already patched, for a locale
    whose numbers are integers (its JSON text then reads back to the
    patched document; fractions may not, as serde_json parses floats on a
    best-effort basis).
  - `exe_integrity`: the `app.asar` integrity record in the copied executable.
  - `install`: the versioned Chinese copy of a registered installation, its
    marker and the reports.
  - `mirror_fallback`: retryable download failures and the fallback mirror URL.
  - `offline_bundle`: the offline resources' root, the Windows mirror base
    address and the macOS package checks.
  - `json`, `text`, `bytes`, `digest`, `matchers`, `paths`, `error`: models
    and helpers; serde_json, sha2, regex, url and `std::path` are reached
    through small trusted wrappers whose contracts are stated next to them.
- `tests/` — tests of the library on concrete values.
- `app/` — the file-system, logging and serialization work around the
  library: reading and writing archives, copying applications, backups.
