use objtalk::patterns::Pattern;

#[test]
fn test_patterns() {
    assert_eq!(Pattern::compile("*").unwrap().regex_str(), "(^.+$)");
    assert_eq!(Pattern::compile("+").unwrap().regex_str(), "(^[^/]+$)");
    assert_eq!(Pattern::compile("livingroom").unwrap().regex_str(), "(^livingroom$)");
    assert_eq!(Pattern::compile("livingroom/+").unwrap().regex_str(), "(^livingroom/[^/]+$)");
    assert_eq!(Pattern::compile("livingroom/*").unwrap().regex_str(), "(^livingroom/.+$)");
    assert_eq!(Pattern::compile("+/temperature,+/humidity").unwrap().regex_str(), "(^[^/]+/temperature$)|(^[^/]+/humidity$)");
    assert_eq!(Pattern::compile(".*").unwrap().regex_str(), "(^\\.\\*$)");

    assert!(Pattern::compile("livingroom").unwrap().matches_str("livingroom"));
    assert!(!Pattern::compile("livingroom").unwrap().matches_str("foo/livingroom"));
    assert!(!Pattern::compile(".*").unwrap().matches_str("foo"));

    assert!(Pattern::compile("device/lamp/+,room/*").unwrap().matches_str("device/lamp/foo"));
    assert!(Pattern::compile("device/lamp/+,room/*").unwrap().matches_str("room/bar"));
    assert!(!Pattern::compile("device/lamp/+,room/*").unwrap().matches_str("scene/livingroom/test"));
}

#[test]
fn star_does_not_match_system() {
    assert!(!Pattern::compile("*").unwrap().matches_str("$system"));
    assert!(Pattern::compile("*,$system").unwrap().matches_str("$system"));
    assert!(Pattern::compile("$system").unwrap().matches_str("$system"));
}

#[test]
fn dot_star_is_literal() {
    let p = Pattern::compile(".*").unwrap();
    assert!(p.matches_str(".*"));
    assert!(!p.matches_str("a"));
    assert!(!p.matches_str("ab"));
    assert!(!p.matches_str(".x"));
}

#[test]
fn plus_stays_within_one_part() {
    let p = Pattern::compile("+/temperature").unwrap();
    assert!(p.matches_str("livingroom/temperature"));
    assert!(!p.matches_str("house/livingroom/temperature"));
    let p = Pattern::compile("*/temperature").unwrap();
    assert!(p.matches_str("house/livingroom/temperature"));
}

#[test]
fn multiple_flag() {
    assert!(Pattern::compile("*").unwrap().matches_multiple());
    assert!(Pattern::compile("a/+").unwrap().matches_multiple());
    assert!(!Pattern::compile("a/b").unwrap().matches_multiple());
    assert!(!Pattern::compile("a,$system").unwrap().matches_multiple());
}

#[test]
fn pattern_keeps_its_text() {
    let p = Pattern::compile("a/+,b").unwrap();
    assert_eq!(p.as_text(), "a/+,b");
    assert_eq!(p.string, "a/+,b");
}

#[test]
fn metacharacters_are_escaped() {
    assert_eq!(Pattern::compile("a(b)").unwrap().regex_str(), "(^a\\(b\\)$)");
    assert!(Pattern::compile("a(b)").unwrap().matches_str("a(b)"));
    assert!(!Pattern::compile("a|b").unwrap().matches_str("a"));
}

#[test]
fn empty_pattern_matches_nothing_but_empty() {
    let p = Pattern::compile("").unwrap();
    assert_eq!(p.regex_str(), "(^$)");
    assert!(!p.matches_str("a"));
}
