# astrium

Wallpaper-driven Material You theming for Linux: extract an accent color from
an image, build a palette, and push it to kitty, Hyprland, Neovim, cava,
quickshell and any user template.

## Layout

- `src/` — the verified library (Verus):
  - `template.rs` — the `{{placeholder}}` engine (`substitute`) and the
    variable set a palette exposes (`build_vars`), with laws: unknown
    placeholders are left as they are, names are trimmed.
  - `broadcast.rs` — the exact text of every palette output (kitty,
    Hyprland, Neovim, cava block, `colors.json` entries), hex parsing and
    formatting, the marker-delimited block patching (`replace_block`,
    proved idempotent), and the broadcast plan (`save_and_broadcast`).
  - `theme.rs` — the palette type, the source color of an image's pixels,
    and the sixteen Material You roles taken from a scheme (quantization,
    scoring and the scheme itself come from `material-colors`).
  - `lib.rs` — the retheme pipeline as a state machine (`apply`,
    `apply_with`, `generate`, `Pipeline`), the `awww query` parser and
    `~/` expansion.
  - `watch.rs` — the watcher's decision, with std's component-wise path
    equality.
  - `config.rs`, `color.rs`, `text.rs` — configuration switches, hex
    formatting, character-level helpers.
- `app/` — the `astrium` command: CLI, config file, image reading, file
  writes, live reloads, and the floating-point color adjustments.
- `tests/` — tests of the library.
