use milkdrop_pi::cli::{Args, DEFAULT_DURATION_SECS};
use milkdrop_pi::text::{eq_ignore_ascii_case_exec, str_eq};
use milkdrop_pi::visualizations::{available_names, resolve_visualizations};

fn args(viz: &str) -> Args {
    Args { viz: viz.to_string(), duration: DEFAULT_DURATION_SECS }
}

#[test]
fn all_in_any_case_selects_everything() {
    assert!(args("all").viz_names().is_empty());
    assert!(args("ALL").viz_names().is_empty());
    assert!(args("aLl").viz_names().is_empty());
}

#[test]
fn names_are_split_trimmed_and_lowercased() {
    assert_eq!(args(" Gol , POLAR\t").viz_names(), vec!["gol", "polar"]);
    assert_eq!(args("equalizer").viz_names(), vec!["equalizer"]);
    assert_eq!(args("a,,b,").viz_names(), vec!["a", "", "b", ""]);
    assert_eq!(args("").viz_names(), vec![""]);
    assert_eq!(args(" all ").viz_names(), vec!["all"]);
    assert_eq!(args("\u{3000}Terrain\u{a0}").viz_names(), vec!["terrain"]);
}

#[test]
fn lowercasing_uses_unicode_rules() {
    assert_eq!(args("ÄBC").viz_names(), vec!["äbc"]);
    assert_eq!(args("ÉQUALIZER").viz_names(), vec!["équalizer"]);
}

#[test]
fn string_helpers_compare_characters() {
    assert!(str_eq("gol", "gol"));
    assert!(!str_eq("gol", "go"));
    assert!(eq_ignore_ascii_case_exec("PoLaR", "polar"));
    assert!(!eq_ignore_ascii_case_exec("Ä", "ä"));
}

#[test]
fn available_names_lists_registry() {
    assert_eq!(available_names(), vec!["equalizer", "gol", "polar", "terrain"]);
}

#[test]
fn resolve_maps_names_to_registry_positions() {
    assert_eq!(resolve_visualizations(&[]), Ok(vec![0, 1, 2, 3]));
    let names = vec!["terrain".to_string(), "gol".to_string(), "terrain".to_string()];
    assert_eq!(resolve_visualizations(&names), Ok(vec![3, 1, 3]));
}

#[test]
fn resolve_reports_first_unknown_name() {
    let names = vec!["gol".to_string(), "flame".to_string(), "nope".to_string()];
    assert_eq!(resolve_visualizations(&names), Err("flame".to_string()));
    let names = vec!["Gol".to_string()];
    assert_eq!(resolve_visualizations(&names), Err("Gol".to_string()));
}
