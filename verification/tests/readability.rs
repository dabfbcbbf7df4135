use sovereign_os::readability::syllables;

#[test]
fn syllable_counts() {
    assert_eq!(syllables("cat"), 1);
    assert_eq!(syllables("apple"), 2);
    assert_eq!(syllables("readability"), 5);
    assert_eq!(syllables("the"), 1);
    assert_eq!(syllables("make"), 1);
    assert_eq!(syllables("queue"), 1);
    assert_eq!(syllables(""), 0);
    assert_eq!(syllables("rhythm"), 1);
}

#[test]
fn syllables_ignore_non_letters_and_case() {
    assert_eq!(syllables("Apple!"), 2);
    assert_eq!(syllables("123"), 0);
    assert_eq!(syllables("TABLE"), 2);
    assert_eq!(syllables("banana"), 3);
}

#[test]
fn every_word_with_a_letter_has_a_syllable() {
    for w in ["b", "xyz", "tsk", "e", "ye"] {
        assert!(syllables(w) >= 1, "{w}");
    }
}
