use sovereign_os::regex_constrain::RegexConstraint;
use sovereign_os::regex_nfa::{Regex, RegexError};

#[test]
fn literals_and_concatenation() {
    let re = Regex::new("abc").unwrap();
    assert!(re.is_match("abc"));
    assert!(!re.is_match("ab"));
    assert!(!re.is_match("abcd"));
    assert!(!re.is_match("xbc"));
}

#[test]
fn alternation() {
    let re = Regex::new("cat|dog|bird").unwrap();
    assert!(re.is_match("cat"));
    assert!(re.is_match("dog"));
    assert!(re.is_match("bird"));
    assert!(!re.is_match("fish"));
}

#[test]
fn quantifiers() {
    let star = Regex::new("ab*c").unwrap();
    assert!(star.is_match("ac"));
    assert!(star.is_match("abc"));
    assert!(star.is_match("abbbbc"));
    assert!(!star.is_match("abd"));

    let plus = Regex::new("ab+c").unwrap();
    assert!(!plus.is_match("ac"));
    assert!(plus.is_match("abc"));
    assert!(plus.is_match("abbc"));

    let opt = Regex::new("colou?r").unwrap();
    assert!(opt.is_match("color"));
    assert!(opt.is_match("colour"));
    assert!(!opt.is_match("colouur"));
}

#[test]
fn character_classes() {
    let re = Regex::new("[a-z]+").unwrap();
    assert!(re.is_match("hello"));
    assert!(!re.is_match("Hello"));
    assert!(!re.is_match("hell0"));

    let neg = Regex::new("[^0-9]+").unwrap();
    assert!(neg.is_match("abc"));
    assert!(!neg.is_match("a1c"));
}

#[test]
fn escapes_and_dot() {
    let digits = Regex::new(r"\d+").unwrap();
    assert!(digits.is_match("12345"));
    assert!(!digits.is_match("12a45"));

    let any = Regex::new("a.c").unwrap();
    assert!(any.is_match("abc"));
    assert!(any.is_match("a c"));
    assert!(!any.is_match("ac"));

    let dot = Regex::new(r"a\.c").unwrap();
    assert!(dot.is_match("a.c"));
    assert!(!dot.is_match("abc"));
}

#[test]
fn groups_and_combinations() {
    let re = Regex::new("(ab)+").unwrap();
    assert!(re.is_match("ab"));
    assert!(re.is_match("abab"));
    assert!(!re.is_match("aba"));

    let date = Regex::new(r"\d\d\d\d-\d\d-\d\d").unwrap();
    assert!(date.is_match("2026-06-09"));
    assert!(!date.is_match("2026/06/09"));
    assert!(!date.is_match("206-06-09"));
}

#[test]
fn empty_pattern_matches_empty() {
    let re = Regex::new("").unwrap();
    assert!(re.is_match(""));
    assert!(!re.is_match("a"));
}

#[test]
fn constrained_decoding_interface() {
    let re = Regex::new(r"[a-z]+@[a-z]+").unwrap();
    let mut set = re.start();
    for c in "ab".chars() {
        assert!(re.can_consume(&set, c));
        set = re.step(&set, c);
    }
    assert!(!re.is_accepting(&set));
    assert!(re.can_consume(&set, '@'));
    assert!(!re.can_consume(&set, '1'));
    for c in "@x".chars() {
        set = re.step(&set, c);
    }
    assert!(re.is_accepting(&set));
}

#[test]
fn is_prefix_validates_partial_generation() {
    let re = Regex::new("foo[0-9]+").unwrap();
    assert!(re.is_prefix("fo"));
    assert!(re.is_prefix("foo"));
    assert!(re.is_prefix("foo1"));
    assert!(!re.is_prefix("bar"));
    assert!(!re.is_match("foo"));
    assert!(re.is_match("foo1"));
}

#[test]
fn rejects_malformed_patterns() {
    assert!(matches!(Regex::new("(ab"), Err(RegexError::UnexpectedEnd)));
    assert!(matches!(Regex::new("*ab"), Err(RegexError::NothingToRepeat(_))));
    assert!(matches!(Regex::new("[a-z"), Err(RegexError::UnexpectedEnd)));
}

#[test]
fn matches_anywhere_finds_substrings() {
    let re = Regex::new(r"\d\d\d").unwrap();
    assert!(re.matches_anywhere("id=427x"));
    assert!(re.matches_anywhere("427"));
    assert!(!re.matches_anywhere("id=42x"));
    assert!(!re.matches_anywhere("no digits here"));
    assert!(!re.is_match("id=427x"));
    assert!(re.is_match("427"));
}

#[test]
fn step_unanchored_detects_a_match_completing_mid_stream() {
    let re = Regex::new("ab").unwrap();
    let mut set = re.start_unanchored();
    assert!(!re.is_accepting(&set));
    for (c, want) in [('x', false), ('a', false), ('b', true), ('y', false)] {
        set = re.step_unanchored(&set, c);
        assert_eq!(re.is_accepting(&set), want, "after {c:?}");
    }
}

#[test]
fn matches_anywhere_with_alternation_and_classes() {
    let re = Regex::new("cat|dog").unwrap();
    assert!(re.matches_anywhere("the cat sat"));
    assert!(re.matches_anywhere("a dog!"));
    assert!(!re.matches_anywhere("a fish"));
}

#[test]
fn a_match_is_a_viable_prefix() {
    let re = Regex::new("(ab|c)*d").unwrap();
    for t in ["d", "abd", "ccabd", "abcd"] {
        assert!(re.is_match(t));
        assert!(re.is_prefix(t));
        assert!(re.matches_anywhere(t));
    }
    assert!(re.is_prefix("abca"));
    assert!(!re.is_prefix("abb"));
}

#[test]
fn can_consume_agrees_with_step() {
    let re = Regex::new("a[bc]d").unwrap();
    let set = re.start();
    let after_a = re.step(&set, 'a');
    assert!(re.can_consume(&after_a, 'b'));
    assert!(!re.step(&after_a, 'b').is_empty());
    assert!(!re.can_consume(&after_a, 'x'));
    assert!(re.step(&after_a, 'x').is_empty());
}

#[test]
fn other_malformed_patterns() {
    assert_eq!(Regex::new("ab)").err(), Some(RegexError::Unexpected { ch: ')', pos: 2 }));
    assert!(matches!(Regex::new("a\\"), Err(RegexError::UnexpectedEnd)));
    assert!(matches!(Regex::new("a|*"), Err(RegexError::NothingToRepeat(_))));
}

#[test]
fn viability_tracks_the_prefix() {
    let c = RegexConstraint::new(r"\d\d\d\d").unwrap();
    assert!(c.token_is_viable("202", "6"));
    assert!(!c.token_is_viable("202", "66"));
    assert!(!c.token_is_viable("202", "a"));
}

#[test]
fn off_pattern_prefix_allows_nothing() {
    let c = RegexConstraint::new(r"\d+").unwrap();
    assert!(c.allowed_token_ids("ab", &["1", "2"]).is_empty());
}

#[test]
fn is_satisfied_reports_full_match() {
    let c = RegexConstraint::new(r"\d\d\d\d").unwrap();
    assert!(!c.is_satisfied("202"));
    assert!(c.is_satisfied("2026"));
    assert!(!c.is_satisfied("20266"));
}

#[test]
fn allows_only_pattern_consistent_tokens() {
    let c = RegexConstraint::new(r"\d\d\d\d").unwrap();
    let vocab = ["0", "1", "9", "a", "x", "12"];
    let allowed = c.allowed_token_ids("", &vocab);
    assert_eq!(allowed, vec![0, 1, 2, 5]);
}

#[test]
fn yes_no_tokens_after_partial_word() {
    let c = RegexConstraint::new("(yes|no)").unwrap();
    assert_eq!(c.allowed_token_ids("", &["y", "n", "z"]), vec![0, 1]);
    assert_eq!(c.allowed_token_ids("y", &["e", "o", "x"]), vec![0]);
    assert!(c.allowed_token_ids("yes", &["s", "y"]).is_empty());
    assert!(c.regex().is_match("no"));
}

#[test]
fn constraint_from_an_existing_regex() {
    let c = RegexConstraint::from_regex(Regex::new("ab").unwrap());
    assert!(c.token_is_viable("a", "b"));
    assert!(c.is_satisfied("ab"));
    assert!(!c.is_satisfied("a"));
}

#[test]
fn error_positions_follow_the_grammar() {
    assert_eq!(Regex::new("a**").err(), Some(RegexError::NothingToRepeat(2)));
    assert_eq!(Regex::new("(a|+)").err(), Some(RegexError::NothingToRepeat(3)));
    assert_eq!(Regex::new("ab)c").err(), Some(RegexError::Unexpected { ch: ')', pos: 2 }));
    assert_eq!(Regex::new("[a-").err(), Some(RegexError::UnexpectedEnd));
    assert_eq!(Regex::new("[\\").err(), Some(RegexError::UnexpectedEnd));
}

#[test]
fn empty_branches_and_repeated_groups() {
    let re = Regex::new("a|").unwrap();
    assert!(re.is_match("a"));
    assert!(re.is_match(""));
    assert!(!re.is_match("aa"));
    let re = Regex::new("(ab|c)*d").unwrap();
    assert!(re.is_match("d"));
    assert!(re.is_match("abcabd"));
    assert!(!re.is_match("abac"));
    let re = Regex::new("(a*)+b").unwrap();
    assert!(re.is_match("b"));
    assert!(re.is_match("aaab"));
    assert!(!re.is_match("aaa"));
}

#[test]
fn class_edges_and_escapes_inside_classes() {
    let re = Regex::new("[a-]x").unwrap();
    assert!(re.is_match("ax"));
    assert!(re.is_match("-x"));
    let re = Regex::new("[\\d_]+").unwrap();
    assert!(re.is_match("4_2"));
    assert!(!re.is_match("4a"));
    let re = Regex::new("[^\\s]").unwrap();
    assert!(re.is_match("q"));
    assert!(!re.is_match(" "));
    let re = Regex::new("a[]").unwrap();
    assert!(re.is_prefix("a"));
    assert!(!re.is_match("a"));
}

#[test]
fn an_empty_token_is_always_viable() {
    let c = RegexConstraint::new(r"\d+").unwrap();
    assert!(c.token_is_viable("ab", ""));
    assert!(c.token_is_viable("12", ""));
    assert!(!c.token_is_viable("ab", "1"));
}

#[test]
fn every_prefix_of_a_viable_prefix_is_viable() {
    let re = Regex::new("ab(c|d)+e").unwrap();
    assert!(re.is_prefix(""));
    assert!(re.is_prefix("abcdc"));
    for k in 0..=5 {
        assert!(re.is_prefix(&"abcdc"[..k]));
    }
    assert!(!re.is_prefix("abx"));
    assert!(!re.is_prefix("abxc"));
}
