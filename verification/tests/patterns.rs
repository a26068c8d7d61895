use projdoc::pattern::ExclusionPattern;
use projdoc::pattern::matches_pattern;
use projdoc::pattern::parse_pattern;
use projdoc::pattern::should_exclude_directory;
use projdoc::pattern::split_slash;

fn comps(parts: &[&str]) -> Vec<String> {
    parts.iter().map(|s| s.to_string()).collect()
}

#[test]
fn parse_recognises_the_three_forms() {
    assert!(matches!(parse_pattern("**"), ExclusionPattern::MatchAll));
    match parse_pattern("**/target") {
        ExclusionPattern::MatchByBasename(name) => assert_eq!(name, "target"),
        _ => panic!("expected a basename pattern"),
    }
    match parse_pattern("a/b") {
        ExclusionPattern::MatchByRelativePath(q) => assert_eq!(q, comps(&["a", "b"])),
        _ => panic!("expected a literal path pattern"),
    }
}

#[test]
fn split_on_slash() {
    assert_eq!(split_slash("a/b/c"), comps(&["a", "b", "c"]));
    assert_eq!(split_slash("one"), comps(&["one"]));
    assert_eq!(split_slash(""), comps(&[""]));
}

#[test]
fn basename_matches_any_depth() {
    let p = parse_pattern("**/target");
    assert!(matches_pattern(&p, &comps(&["target"])));
    assert!(matches_pattern(&p, &comps(&["a", "b", "target"])));
    assert!(!matches_pattern(&p, &comps(&["target", "below"])));
    assert!(!matches_pattern(&p, &comps(&["targets"])));
}

#[test]
fn relative_path_matches_exactly() {
    let p = parse_pattern("a/b");
    assert!(matches_pattern(&p, &comps(&["a", "b"])));
    assert!(!matches_pattern(&p, &comps(&["x", "a", "b"])));
    assert!(!matches_pattern(&p, &comps(&["a", "b", "c"])));
    // A leading dot component is stripped before the comparison.
    assert!(matches_pattern(&p, &comps(&[".", "a", "b"])));
}

#[test]
fn match_all_matches_everything() {
    let p = parse_pattern("**");
    assert!(matches_pattern(&p, &comps(&["anything"])));
    assert!(matches_pattern(&p, &comps(&[])));
}

#[test]
fn first_match_decides_and_any_match_excludes() {
    let pats = vec![parse_pattern("**/skip"), parse_pattern("a/b")];
    assert!(should_exclude_directory(&comps(&["x", "skip"]), &pats));
    assert!(should_exclude_directory(&comps(&["a", "b"]), &pats));
    assert!(!should_exclude_directory(&comps(&["a"]), &pats));
    assert!(!should_exclude_directory(&comps(&["kept"]), &vec![]));
}

#[test]
fn case_sensitive_matching() {
    let p = parse_pattern("**/Target");
    assert!(matches_pattern(&p, &comps(&["Target"])));
    assert!(!matches_pattern(&p, &comps(&["target"])));
}
