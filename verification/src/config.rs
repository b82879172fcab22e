//! The user configuration's plain parts: which outputs are enabled and
//! which templates to render.

use vstd::prelude::*;

verus! {

/// One user template: read `input`, substitute `{{var}}` placeholders,
/// write `output`. Both paths may start with `~/`.
#[derive(Clone, Debug)]
pub struct TemplateConfig {
    pub input: String,
    pub output: String,
}

/// Which built-in outputs a retheme writes and reloads.
#[derive(Clone, Copy, Debug)]
pub struct OutputConfig {
    pub kitty: bool,
    pub hyprland: bool,
    pub nvim: bool,
    pub cava: bool,
    pub quickshell: bool,
}

/// The default of every output switch: on.
pub fn default_true() -> (b: bool)
    ensures
        b,
{
    true
}

/// The default theme mode: `"dark"`.
pub fn default_mode() -> (s: String)
    ensures
        s@ == "dark"@,
{
    String::from_str("dark")
}

impl Default for OutputConfig {
    /// Every output enabled.
    fn default() -> (c: Self)
        ensures
            c.kitty && c.hyprland && c.nvim && c.cava && c.quickshell,
    {
        OutputConfig { kitty: true, hyprland: true, nvim: true, cava: true, quickshell: true }
    }
}

} // verus!
