use runner_directives::paths::{
    is_excluded_path, join_pattern, join_segments, normalize_path, relativize, split_patterns,
};
use runner_directives::types::Args;

fn segs(parts: &[&str]) -> Vec<String> {
    parts.iter().map(|s| s.to_string()).collect()
}

#[test]
fn normalize_path_replaces_backslashes() {
    assert_eq!(normalize_path("src\\a\\b.ts"), "src/a/b.ts");
    assert_eq!(normalize_path("src/a/b.ts"), "src/a/b.ts");
    assert_eq!(normalize_path(""), "");
}

#[test]
fn excluded_paths_are_detected() {
    assert!(is_excluded_path("web/node_modules/x/y.ts"));
    assert!(is_excluded_path("web/dist/bundle.ts"));
    assert!(is_excluded_path("web/.nitro/cache.ts"));
    assert!(is_excluded_path("dist/bundle.ts"));
    assert!(is_excluded_path("web/node_modules"));
    assert!(!is_excluded_path("web/src/distance.ts"));
    assert!(!is_excluded_path("web/my_node_modules_backup/x.ts"));
    assert!(!is_excluded_path("web/src/runner.ts"));
}

#[test]
fn split_patterns_trims_each_piece() {
    assert_eq!(
        split_patterns("src/**/*.ts, runners/**/*.ts"),
        vec!["src/**/*.ts".to_string(), "runners/**/*.ts".to_string()]
    );
    assert_eq!(split_patterns("one"), vec!["one".to_string()]);
    assert_eq!(split_patterns(" padded "), vec!["padded".to_string()]);
    assert_eq!(split_patterns(""), vec!["".to_string()]);
    assert_eq!(
        split_patterns("a,,b"),
        vec!["a".to_string(), "".to_string(), "b".to_string()]
    );
}

#[test]
fn split_patterns_trims_unicode_whitespace() {
    assert_eq!(
        split_patterns("\u{a0}one\u{2003} , \u{3000}two\u{85}"),
        vec!["one".to_string(), "two".to_string()]
    );
}

#[test]
fn join_pattern_skips_the_current_directory() {
    assert_eq!(join_pattern(".", "src/**/*.ts"), "src/**/*.ts");
    assert_eq!(join_pattern("work", "src/**/*.ts"), "work/src/**/*.ts");
}

#[test]
fn relativize_strips_the_working_directory_prefix() {
    assert_eq!(
        relativize(&segs(&["home", "app"]), &segs(&["home", "app", "src", "x.ts"])),
        segs(&["src", "x.ts"])
    );
}

#[test]
fn relativize_drops_only_the_common_ancestor() {
    assert_eq!(
        relativize(&segs(&["home", "app", "web"]), &segs(&["home", "app", "api", "y.ts"])),
        segs(&["api", "y.ts"])
    );
}

#[test]
fn relativize_keeps_disjoint_paths_whole() {
    assert_eq!(
        relativize(&segs(&["opt", "tool"]), &segs(&["home", "app", "z.ts"])),
        segs(&["home", "app", "z.ts"])
    );
}

#[test]
fn join_segments_uses_forward_slashes() {
    assert_eq!(join_segments(&segs(&["src", "a", "b.ts"])), "src/a/b.ts");
    assert_eq!(join_segments(&segs(&["only.ts"])), "only.ts");
    assert_eq!(join_segments(&segs(&[])), "");
}

#[test]
fn default_args_match_the_documented_defaults() {
    let args = Args::default();
    assert_eq!(args.patterns, "src/**/*.ts,runners/**/*.ts");
    assert_eq!(args.output, "runner-schemas.json");
    assert_eq!(args.cwd, ".");
}
