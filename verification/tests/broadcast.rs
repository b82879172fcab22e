use astrium::broadcast::{
    cava_block, color_entries, hex, hyprland_conf, hyprland_keywords, kitty_conf, nvim_theme,
    parse_hex, replace_block, special_entries,
};
use astrium::color::fmt_hex;
use astrium::theme::Colors;

fn colors(n: usize) -> Colors {
    Colors {
        alpha: "100".to_string(),
        background: "#1e1e2e".to_string(),
        foreground: "#cdd6f4".to_string(),
        ansi_colors: (0..n).map(|i| format!("#{:02x}{:02x}{:02x}", i, i + 1, i + 2)).collect(),
    }
}

#[test]
fn fmt_hex_is_lowercase_and_padded() {
    assert_eq!(fmt_hex(0, 10, 255), "#000aff");
    assert_eq!(hex((171, 205, 239)), "#abcdef");
}

#[test]
fn parse_hex_reads_channels() {
    assert_eq!(parse_hex("#89b4fa"), (0x89, 0xb4, 0xfa));
    assert_eq!(parse_hex("89B4FA"), (0x89, 0xb4, 0xfa));
    assert_eq!(parse_hex("###010203"), (1, 2, 3));
    assert_eq!(parse_hex("#zz+f-1"), (0, 15, 0));
    assert_eq!(parse_hex("#é1234"), (0, 0x12, 0x34));
}

#[test]
fn hex_roundtrip_values() {
    for c in [(0u8, 0u8, 0u8), (255, 255, 255), (18, 52, 86), (9, 160, 15)] {
        assert_eq!(parse_hex(&hex(c)), c);
    }
}

#[test]
fn kitty_conf_lists_every_color() {
    assert_eq!(
        kitty_conf(&colors(2)),
        "background #1e1e2e\nforeground #cdd6f4\ncolor0 #000102\ncolor1 #010203\n"
    );
}

#[test]
fn json_entries_name_colors() {
    let e = color_entries(&colors(11));
    assert_eq!(e.len(), 11);
    assert_eq!(e[10], ("color10".to_string(), "#0a0b0c".to_string()));
    let s = special_entries(&colors(0));
    assert_eq!(s[0], ("background".to_string(), "#1e1e2e".to_string()));
    assert_eq!(s[1], ("foreground".to_string(), "#cdd6f4".to_string()));
}

#[test]
fn hyprland_uses_ansi_4_and_8() {
    let text = hyprland_conf(&colors(16));
    assert_eq!(
        text,
        "general {\n    col.active_border = rgba(040506ee)\n    col.inactive_border = rgba(08090aaa)\n}\ndecoration {\n    shadow {\n        color = rgba(1e1e2eee)\n    }\n}\n"
    );
    let k = hyprland_keywords(&colors(16));
    assert_eq!(k[0], ("general:col.active_border".to_string(), "rgba(040506ee)".to_string()));
    assert_eq!(k[1], ("general:col.inactive_border".to_string(), "rgba(08090aaa)".to_string()));
}

#[test]
fn hyprland_falls_back_without_ansi() {
    let k = hyprland_keywords(&colors(0));
    assert_eq!(k[0].1, "rgba(89b4faee)");
    assert_eq!(k[1].1, "rgba(595959aa)");
}

#[test]
fn nvim_theme_uses_palette_and_fallbacks() {
    let full = nvim_theme(&colors(16));
    assert!(full.starts_with("-- Auto-generated by astrium, do not edit by hand\nlocal M = {}\n\nfunction M.apply()\n"));
    assert!(full.contains("  hl(0, 'Normal', { fg = '#cdd6f4', bg = '#1e1e2e' })\n"));
    assert!(full.contains("  hl(0, 'CursorLine', { bg = '#08090a' })\n"));
    assert!(full.contains("  hl(0, 'Search', { bg = '#030405', fg = '#1e1e2e' })\n"));
    assert!(full.ends_with("end\n\nreturn M\n"));
    assert_eq!(full.lines().count(), 36);
    let bare = nvim_theme(&colors(0));
    assert!(bare.contains("  hl(0, 'LineNr', { fg = '#666666' })\n"));
    assert!(bare.contains("  hl(0, 'Comment', { fg = '#888888', italic = true })\n"));
    assert!(bare.contains("  hl(0, 'NeoTreeGitAdded', { fg = '#a6e3a1' })\n"));
}

#[test]
fn cava_block_skips_slots_0_and_8() {
    assert_eq!(
        cava_block(&colors(3)),
        "# >>> astrium\n[color]\ngradient = 1\ngradient_count = 2\ngradient_color_1 = '#010203'\ngradient_color_2 = '#020304'\n# <<< astrium\n"
    );
    let full = cava_block(&colors(16));
    assert!(full.contains("gradient_count = 14\n"));
    assert!(full.contains("gradient_color_8 = '#090a0b'\n"));
    assert!(full.contains("gradient_color_14 = '#0f1011'\n"));
    assert!(!full.contains("'#08090a'"));
}

#[test]
fn replace_block_appends_when_unmarked() {
    let block = "# >>> astrium\nx\n# <<< astrium\n";
    assert_eq!(replace_block("", block), format!("\n{block}"));
    assert_eq!(replace_block("a = 1", block), format!("a = 1\n\n{block}"));
    assert_eq!(replace_block("a = 1\n", block), format!("a = 1\n\n{block}"));
}

#[test]
fn replace_block_replaces_between_markers() {
    let old = "top\n# >>> astrium\nold\n# <<< astrium\nbottom\n";
    let block = "# >>> astrium\nnew\n# <<< astrium\n";
    assert_eq!(
        replace_block(old, block),
        "top\n# >>> astrium\nnew\n# <<< astrium\nbottom\n"
    );
}

#[test]
fn replace_block_twice_is_once() {
    let block = cava_block(&colors(16));
    for existing in ["", "framerate = 60", "a\n# >>> astrium\nstale\n# <<< astrium\nb"] {
        let once = replace_block(existing, &block);
        assert_eq!(replace_block(&once, &block), once);
    }
}
