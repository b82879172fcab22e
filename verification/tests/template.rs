use astrium::template::{build_vars, substitute, Vars};
use astrium::theme::Colors;

fn vars() -> Vars {
    let mut m = Vars::new();
    m.insert("base".to_string(), "#1e1e2e".to_string());
    m.insert("base.strip".to_string(), "1e1e2e".to_string());
    m
}

#[test]
fn substitutes_known_keys() {
    assert_eq!(substitute("bg = {{base}}", &vars()), "bg = #1e1e2e");
}

#[test]
fn trims_inner_whitespace() {
    assert_eq!(substitute("{{ base }}", &vars()), "#1e1e2e");
}

#[test]
fn strip_variant_drops_hash() {
    assert_eq!(
        substitute("rgba({{base.strip}}ff)", &vars()),
        "rgba(1e1e2eff)"
    );
}

#[test]
fn leaves_unknown_keys_intact() {
    assert_eq!(substitute("{{nope}}", &vars()), "{{nope}}");
}

#[test]
fn unclosed_placeholder_is_copied() {
    assert_eq!(substitute("a {{base and more", &vars()), "a {{base and more");
    assert_eq!(substitute("{", &vars()), "{");
    assert_eq!(substitute("", &vars()), "");
}

#[test]
fn substitution_is_single_pass() {
    let mut m = Vars::new();
    m.insert("a".to_string(), "{{b}}".to_string());
    m.insert("b".to_string(), "x".to_string());
    assert_eq!(substitute("{{a}}{{b}}", &m), "{{b}}x");
}

#[test]
fn first_closing_braces_end_the_name() {
    assert_eq!(substitute("{{base}}}}", &vars()), "#1e1e2e}}");
    assert_eq!(substitute("{{{base}}", &vars()), "{#1e1e2e");
}

#[test]
fn unicode_whitespace_is_trimmed_inside_braces() {
    assert_eq!(substitute("{{\u{3000}base\t}}", &vars()), "#1e1e2e");
}

#[test]
fn non_ascii_text_is_copied_verbatim() {
    assert_eq!(substitute("é{{base}}", &vars()), "é#1e1e2e");
    assert_eq!(substitute("a: é; {{base}}", &vars()), "a: é; #1e1e2e");
    assert_eq!(substitute("{{thème}} ✓", &vars()), "{{thème}} ✓");
}

#[test]
fn later_insert_replaces_earlier() {
    let mut m = Vars::new();
    m.insert("k".to_string(), "1".to_string());
    m.insert("k".to_string(), "2".to_string());
    assert_eq!(m.get("k").map(|s| s.as_str()), Some("2"));
    assert_eq!(m.get("missing"), None);
}

fn palette() -> Colors {
    Colors {
        alpha: "100".to_string(),
        background: "#101010".to_string(),
        foreground: "##e0e0e0".to_string(),
        ansi_colors: (0..12).map(|i| format!("#0000{:02x}", i)).collect(),
    }
}

#[test]
fn build_vars_exposes_every_color_and_strip_twin() {
    let v = build_vars(&palette());
    assert_eq!(v.get("background").unwrap(), "#101010");
    assert_eq!(v.get("background.strip").unwrap(), "101010");
    assert_eq!(v.get("foreground").unwrap(), "##e0e0e0");
    assert_eq!(v.get("foreground.strip").unwrap(), "e0e0e0");
    assert_eq!(v.get("cursor").unwrap(), "##e0e0e0");
    assert_eq!(v.get("cursor.strip").unwrap(), "e0e0e0");
    assert_eq!(v.get("color0").unwrap(), "#000000");
    assert_eq!(v.get("color11").unwrap(), "#00000b");
    assert_eq!(v.get("color11.strip").unwrap(), "00000b");
    assert_eq!(v.get("alpha").unwrap(), "100");
    assert!(v.get("color12").is_none());
    assert!(v.get("alpha.strip").is_none());
}

#[test]
fn template_renders_readme_example() {
    let v = build_vars(&palette());
    let src = "@define-color bg {{background}};\n.border { border: 1px solid #{{color5.strip}}; }\n{{colour4}}";
    assert_eq!(
        substitute(src, &v),
        "@define-color bg #101010;\n.border { border: 1px solid #000005; }\n{{colour4}}"
    );
}
