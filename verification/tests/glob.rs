use git_statistics::glob::{is_listed, Glob, PathMatcher, PatternError};

fn matches(pattern: &str, path: &str) -> bool {
    Glob::new(pattern).ok().unwrap().matches(path)
}

fn patterns(list: &[&str]) -> Vec<String> {
    list.iter().map(|p| p.to_string()).collect()
}

#[test]
fn literal_patterns_match_themselves_only() {
    assert!(matches("src/lib.rs", "src/lib.rs"));
    assert!(!matches("src/lib.rs", "src/lib.rs.bak"));
    assert!(!matches("src/lib.rs", "src/lib"));
    assert!(!matches("src", "src/lib.rs"));
    assert!(matches("", ""));
    assert!(!matches("", "a"));
}

#[test]
fn question_mark_is_one_character_but_no_slash() {
    assert!(matches("a?c", "abc"));
    assert!(matches("a?c", "aüc"));
    assert!(!matches("a?c", "ac"));
    assert!(!matches("a?c", "abbc"));
    assert!(!matches("a?c", "a/c"));
}

#[test]
fn star_stays_inside_a_directory() {
    assert!(matches("assets/*", "assets/logo.png"));
    assert!(matches("assets/*", "assets/"));
    assert!(!matches("assets/*", "assets/img/logo.png"));
    assert!(!matches("assets/*", "src/lib.rs"));
    assert!(matches("*.rs", "main.rs"));
    assert!(!matches("*.rs", "src/main.rs"));
    assert!(matches("*", ""));
    assert!(matches("a*b*c", "aXbYbZc"));
    assert!(!matches("a*b*c", "aXbYbZ"));
}

#[test]
fn double_star_crosses_directories() {
    assert!(matches("**", ""));
    assert!(matches("**", "a/b/c"));
    assert!(matches("src/**", "src/a/b.rs"));
    assert!(matches("**/*.rs", "src/a/b.rs"));
    assert!(!matches("**/*.rs", "b.rs"));
    assert!(matches("src/**/*.rs", "src/a/b.rs"));
    assert!(!matches("src/**/*.rs", "src/b.rs"));
    assert!(matches("***", "a/b"));
    assert!(matches("a***", "a/b"));
}

#[test]
fn classes_list_characters_and_ranges() {
    assert!(matches("[abc]", "b"));
    assert!(!matches("[abc]", "d"));
    assert!(matches("[a-c]x", "bx"));
    assert!(!matches("[a-c]x", "dx"));
    assert!(matches("v[0-9].[0-9]", "v1.7"));
    assert!(matches("[a-cx-z]", "y"));
    assert!(matches("[a-a]", "a"));
    assert!(!matches("[a-c]", "ab"));
    assert!(!matches("[a-c]", ""));
}

#[test]
fn classes_can_be_negated() {
    assert!(matches("[!abc]", "d"));
    assert!(!matches("[!abc]", "a"));
    assert!(matches("[^0-9]", "x"));
    assert!(!matches("[^0-9]", "5"));
    assert!(matches("[a!]", "!"));
    assert!(matches("[a^]", "^"));
}

#[test]
fn classes_never_match_a_slash() {
    assert!(!matches("a[/]b", "a/b"));
    assert!(!matches("a[!x]b", "a/b"));
    assert!(!matches("a[.-0]b", "a/b"));
    assert!(matches("a[.-0]b", "a.b"));
}

#[test]
fn bracket_and_hyphen_as_members() {
    assert!(matches("[]]", "]"));
    assert!(matches("[]a]", "a"));
    assert!(matches("[!]]", "a"));
    assert!(!matches("[!]]", "]"));
    assert!(matches("[-a]", "-"));
    assert!(matches("[a-]", "-"));
    assert!(matches("[a-]", "a"));
    assert!(!matches("[a-]", "b"));
    assert!(matches("[[]", "["));
}

#[test]
fn backslash_takes_the_next_character_literally() {
    assert!(matches("a\\*b", "a*b"));
    assert!(!matches("a\\*b", "aXb"));
    assert!(matches("\\[x]", "[x]"));
    assert!(matches("a\\\\b", "a\\b"));
    assert!(matches("\\?", "?"));
}

#[test]
fn malformed_patterns_are_refused() {
    assert_eq!(Glob::new("[abc").err(), Some(PatternError::UnclosedClass));
    assert_eq!(Glob::new("[").err(), Some(PatternError::UnclosedClass));
    assert_eq!(Glob::new("[]").err(), Some(PatternError::UnclosedClass));
    assert_eq!(Glob::new("[!]").err(), Some(PatternError::UnclosedClass));
    assert_eq!(Glob::new("a[b-").err(), Some(PatternError::UnclosedClass));
    assert_eq!(Glob::new("[z-a]").err(), Some(PatternError::ReversedRange));
    assert_eq!(Glob::new("abc\\").err(), Some(PatternError::TrailingEscape));
    assert!(Glob::new("[a-z]").is_ok());
    assert!(Glob::new("]").is_ok());
    assert!(matches("]", "]"));
}

#[test]
fn the_first_fault_from_the_left_is_reported() {
    assert_eq!(Glob::new("[z-a").err(), Some(PatternError::ReversedRange));
    assert_eq!(Glob::new("[a\\").err(), Some(PatternError::UnclosedClass));
    assert_eq!(Glob::new("[b-a]\\").err(), Some(PatternError::ReversedRange));
    assert_eq!(Glob::new("[a-b]\\").err(), Some(PatternError::TrailingEscape));
}

#[test]
fn matcher_matches_if_one_pattern_does() {
    let matcher = PathMatcher::build(&patterns(&["assets/*", "*.lock", "docs/**"]));
    assert!(matcher.is_match("assets/logo.png"));
    assert!(matcher.is_match("Cargo.lock"));
    assert!(matcher.is_match("docs/a/b/c.md"));
    assert!(!matcher.is_match("src/lib.rs"));
    assert!(!matcher.is_match("sub/Cargo.lock"));
}

#[test]
fn matcher_without_patterns_matches_nothing() {
    let matcher = PathMatcher::build(&patterns(&[]));
    assert!(!matcher.is_match(""));
    assert!(!matcher.is_match("src/lib.rs"));
    let only_malformed = PathMatcher::build(&patterns(&["[", "x\\"]));
    assert!(!only_malformed.is_match("["));
    assert!(!only_malformed.is_match("x"));
}

#[test]
fn malformed_patterns_leave_the_others_alone() {
    let with = PathMatcher::build(&patterns(&["[unclosed", "assets/*", "[z-a]", "*.md", "oops\\"]));
    let without = PathMatcher::build(&patterns(&["assets/*", "*.md"]));
    for path in ["assets/logo.png", "README.md", "src/lib.rs", "[unclosed", "oops", "z"] {
        assert_eq!(with.is_match(path), without.is_match(path));
    }
    assert!(with.is_match("assets/logo.png"));
    assert!(with.is_match("README.md"));
    assert!(!with.is_match("src/lib.rs"));
}

#[test]
fn dropped_patterns_can_be_counted() {
    let list = patterns(&["[unclosed", "assets/*", "[z-a]", "*.md", "oops\\"]);
    let matcher = PathMatcher::build(&list);
    assert_eq!(matcher.len(), 2);
    assert_eq!(list.len() - matcher.len(), 3);
    assert_eq!(PathMatcher::build(&patterns(&[])).len(), 0);
}

#[test]
fn no_matcher_lists_nothing() {
    let matcher = PathMatcher::build(&patterns(&["*"]));
    assert!(is_listed(Some(&matcher), "a"));
    assert!(!is_listed(Some(&matcher), "a/b"));
    assert!(!is_listed(None, "a"));
}
