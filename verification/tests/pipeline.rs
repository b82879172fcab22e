use astrium::config::{default_mode, default_true, OutputConfig, TemplateConfig};
use astrium::{apply, apply_with, expand_home, generate, is_fatal, wallpaper_from_query};
use astrium::broadcast::save_and_broadcast;
use astrium::{Action, Outcome, Pipeline, Step};

fn steps(mut p: Pipeline) -> Vec<Step> {
    let mut v = Vec::new();
    while let Action::Run(s) = p.action() {
        v.push(s);
        p.record(Outcome::Done);
    }
    assert_eq!(p.action(), Action::Finish);
    v
}

#[test]
fn apply_runs_every_enabled_output() {
    let all = steps(apply(&OutputConfig::default(), true));
    assert_eq!(
        all,
        vec![
            Step::SetWallpaper,
            Step::ExtractSource,
            Step::BuildColors,
            Step::CreateDir,
            Step::WriteColorsJson,
            Step::WriteKittyConf,
            Step::ReloadKitty,
            Step::WriteHyprlandConf,
            Step::ReloadHyprland,
            Step::WriteNvimTheme,
            Step::NotifyNvim,
            Step::PatchCavaConfig,
            Step::ReloadCava,
            Step::WriteQuickshell,
            Step::RenderTemplates,
        ]
    );
}

#[test]
fn apply_with_skips_disabled_outputs() {
    let o = OutputConfig { kitty: false, hyprland: false, nvim: true, cava: false, quickshell: false };
    assert_eq!(
        steps(apply_with(&o, false, false)),
        vec![
            Step::ExtractSource,
            Step::BuildColors,
            Step::CreateDir,
            Step::WriteColorsJson,
            Step::WriteKittyConf,
            Step::WriteNvimTheme,
            Step::NotifyNvim,
        ]
    );
}

#[test]
fn generate_writes_files_only() {
    let s = steps(generate());
    assert_eq!(s.len(), 9);
    assert!(!s.contains(&Step::RenderTemplates));
    assert!(!s.contains(&Step::SetWallpaper));
    assert!(!s.contains(&Step::WriteQuickshell));
    assert!(!s.contains(&Step::PatchCavaConfig));
    assert!(s.contains(&Step::WriteCavaGradient));
}

#[test]
fn fatal_failure_aborts_and_others_do_not() {
    let mut p = apply(&OutputConfig::default(), false);
    assert_eq!(p.action(), Action::Run(Step::SetWallpaper));
    p.record(Outcome::Failed);
    assert_eq!(p.action(), Action::Run(Step::ExtractSource));
    p.record(Outcome::Failed);
    assert_eq!(p.action(), Action::Abort);
    assert!(is_fatal(Step::WriteColorsJson));
    assert!(!is_fatal(Step::RenderTemplates));
}

#[test]
fn query_parsing_finds_first_image() {
    let out = "eDP-1: 1920x1080, scale: 1, currently displaying: image: /home/u/Wallpaper/a.jpg\nHDMI-A-1: 1920x1080, scale: 1, currently displaying: image: /b.png\n";
    assert_eq!(wallpaper_from_query(out).as_deref(), Some("/home/u/Wallpaper/a.jpg"));
    assert_eq!(wallpaper_from_query("x: color: 000000\ny: image:  /p.jpg , \r\n").as_deref(), Some("/p.jpg"));
    assert_eq!(wallpaper_from_query("image: /a image: /b").as_deref(), Some("/a"));
    assert_eq!(wallpaper_from_query("no image here\n"), None);
    assert_eq!(wallpaper_from_query(""), None);
}

#[test]
fn home_expansion() {
    assert_eq!(expand_home("~/x/y.css", "/home/u"), "/home/u/x/y.css");
    assert_eq!(expand_home("/etc/x", "/home/u"), "/etc/x");
    assert_eq!(expand_home("~x", "/home/u"), "~x");
}

#[test]
fn config_defaults() {
    let o = OutputConfig::default();
    assert!(o.kitty && o.hyprland && o.nvim && o.cava && o.quickshell);
    assert!(default_true());
    assert_eq!(default_mode(), "dark");
    let t = TemplateConfig { input: "a".to_string(), output: "b".to_string() };
    assert_eq!(t.clone().output, "b");
}

#[test]
fn broadcast_plan_follows_switches() {
    let o = OutputConfig { kitty: false, hyprland: true, nvim: false, cava: true, quickshell: false };
    assert_eq!(
        steps(save_and_broadcast(&o)),
        vec![
            Step::CreateDir,
            Step::WriteColorsJson,
            Step::WriteKittyConf,
            Step::WriteHyprlandConf,
            Step::ReloadHyprland,
            Step::PatchCavaConfig,
            Step::ReloadCava,
        ]
    );
}
