use runner_directives::typo::near_match;

#[test]
fn near_match_accepts_one_insertion() {
    assert!(near_match("use runnerr", "use runner"));
}

#[test]
fn near_match_rejects_distance_two() {
    assert!(!near_match("use walker", "use runner"));
}

#[test]
fn near_match_accepts_one_substitution() {
    assert!(near_match("use runnar", "use runner"));
    assert!(near_match("Use runner", "use runner"));
}

#[test]
fn near_match_accepts_one_deletion() {
    assert!(near_match("use runne", "use runner"));
    assert!(near_match("us runner", "use runner"));
}

#[test]
fn near_match_rejects_exact_equality() {
    assert!(!near_match("use runner", "use runner"));
    assert!(!near_match("", ""));
}

#[test]
fn near_match_rejects_two_edits_same_length() {
    assert!(!near_match("use ruNNer", "use runner"));
}

#[test]
fn near_match_rejects_length_gap_of_two() {
    assert!(!near_match("use runnerrr", "use runner"));
    assert!(!near_match("use runn", "use runner"));
}

#[test]
fn near_match_on_short_strings() {
    assert!(near_match("a", ""));
    assert!(near_match("", "b"));
    assert!(near_match("a", "b"));
    assert!(!near_match("ab", ""));
}

#[test]
fn near_match_is_symmetric_on_sampled_pairs() {
    let pairs = [
        ("use runnerr", "use runner"),
        ("use runner", "use runnerr"),
        ("use walker", "use runner"),
        ("use runne", "use runner"),
        ("", "a"),
        ("abc", "abc"),
        ("abc", "axc"),
        ("kitten", "sitting"),
    ];
    for (a, b) in pairs {
        assert_eq!(near_match(a, b), near_match(b, a));
    }
}
