//! The palette handed to every output, and the Material You scheme roles it
//! is built from.

use vstd::prelude::*;

verus! {

/// A built palette: every color is a `#rrggbb` string.
pub struct Colors {
    pub alpha: String,
    pub background: String,
    pub foreground: String,
    pub ansi_colors: Vec<String>,
}

/// A color by its alpha, red, green and blue channels.
#[derive(Clone, Copy, Debug)]
pub struct Argb {
    pub alpha: u8,
    pub red: u8,
    pub green: u8,
    pub blue: u8,
}

/// The light and the dark Material You scheme that
/// `material_colors::theme::ThemeBuilder::with_source(seed).build()` makes
/// from the seed `Argb::new(source.alpha, source.red, source.green,
/// source.blue)`, each as the 49 colors that `Scheme::into_iter` yields, in
/// its order (`primary`, `on_primary`, ..., `surface` at 30, `on_surface` at
/// 38, ..., `scrim` at 48), and the theme's `source` field: `build` copies the
/// seed `with_source` was given into it, so it gives back `source` channel by
/// channel. The scheme colors themselves are left unsaid: the crate computes
/// them in floating point through std's `powf`, `cbrt` and trigonometric
/// functions, which call the platform's math library, so one seed need not
/// give the same colors on every machine.
#[verifier::external_body]
fn material_schemes(source: Argb) -> (s: (Vec<Argb>, Vec<Argb>, Argb))
    ensures
        s.0@.len() == 49,
        s.1@.len() == 49,
        s.2 == source,
{
    let seed = material_colors::color::Argb::new(source.alpha, source.red, source.green, source.blue);
    let theme = material_colors::theme::ThemeBuilder::with_source(seed).build();
    let roles = |s: material_colors::scheme::Scheme| -> Vec<Argb> {
        s.into_iter().map(|(_, c)| Argb { alpha: c.alpha, red: c.red, green: c.green, blue: c.blue }).collect()
    };
    let t = theme.source;
    (roles(theme.schemes.light), roles(theme.schemes.dark), Argb { alpha: t.alpha, red: t.red, green: t.green, blue: t.blue })
}

/// Material You's source color of an image's pixels, as
/// `material_colors::image::ImageReader::extract_color` computes it:
/// `QuantizerCelebi::quantize` to at most 128 colors, then `Score::score`,
/// whose first ranked color is the result (Google Blue, `#4285f4`, when no
/// color is fit for a theme; `score` always returns at least one color).
/// Nothing is stated of which color comes back: quantization and scoring
/// work in floating point through std's `powf`, `cbrt` and trigonometric
/// functions, which call the platform's math library, so the same pixels
/// need not give the same color on every machine. The pixel count is bounded
/// because the crate counts pixels in `u32`.
#[verifier::external_body]
pub fn source_color(pixels: &Vec<Argb>) -> (c: Argb)
    requires
        pixels@.len() <= u32::MAX,
{
    let px: Vec<material_colors::color::Argb> = pixels.iter().map(|p| material_colors::color::Argb::new(p.alpha, p.red, p.green, p.blue)).collect();
    let result = <material_colors::quantize::QuantizerCelebi as material_colors::quantize::Quantizer>::quantize(&px, 128);
    let c = material_colors::score::Score::score(&result.color_to_count, None, None, None)[0];
    Argb { alpha: c.alpha, red: c.red, green: c.green, blue: c.blue }
}

/// The scheme slots the palette draws on, in ansi order: surface,
/// primary_container, primary, secondary, tertiary, on_primary,
/// secondary_container, on_surface_variant, outline, inverse_primary,
/// outline_variant, tertiary_container, on_primary_container,
/// on_secondary_container, on_tertiary_container, on_surface.
pub open spec fn role_slots() -> Seq<int> {
    seq![30, 2, 0, 9, 17, 1, 11, 39, 40, 4, 41, 19, 3, 12, 20, 38]
}

/// The light scheme for mode `"light"`, the dark one for any other mode.
pub fn select_scheme(light: Vec<Argb>, dark: Vec<Argb>, mode: &str) -> (s: Vec<Argb>)
    ensures
        s@ == if mode@ == "light"@ {
            light@
        } else {
            dark@
        },
{
    if String::from_str(mode) == String::from_str("light") {
        light
    } else {
        dark
    }
}

/// The sixteen ansi roles of a scheme, in `role_slots` order.
pub fn pick_roles(scheme: &Vec<Argb>) -> (roles: Vec<Argb>)
    requires
        scheme@.len() == 49,
    ensures
        roles@ == role_slots().map_values(|i: int| scheme@[i]),
{
    let slots: [usize; 16] = [30, 2, 0, 9, 17, 1, 11, 39, 40, 4, 41, 19, 3, 12, 20, 38];
    assert(slots@ == role_slots().map_values(|i: int| i as usize));
    let mut roles: Vec<Argb> = Vec::new();
    for k in 0..16
        invariant
            scheme@.len() == 49,
            slots@ == role_slots().map_values(|i: int| i as usize),
            roles@ == role_slots().take(k as int).map_values(|i: int| scheme@[i]),
    {
        roles.push(scheme[slots[k]]);
        assert(role_slots().take(k + 1) == role_slots().take(k as int).push(role_slots()[k as int]));
    }
    assert(role_slots().take(16) == role_slots());
    roles
}

/// The sixteen ansi roles of the Material You scheme seeded by `source`:
/// the light scheme for mode `"light"`, the dark one otherwise. Role 0 is
/// the scheme's surface and role 15 its on_surface.
pub fn theme_roles(source: Argb, mode: &str) -> (roles: Vec<Argb>)
    ensures
        roles@.len() == 16,
{
    let (light, dark, _seed) = material_schemes(source);
    let scheme = select_scheme(light, dark, mode);
    pick_roles(&scheme)
}

} // verus!
