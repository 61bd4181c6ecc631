use si_macros::text::{contains_char, find, matches_at, same_text, split_on, trim};

#[test]
fn same_text_compares_characters() {
    assert!(same_text("plural", "plural"));
    assert!(!same_text("plural", "plura"));
    assert!(!same_text("plural", "pluraL"));
    assert!(same_text("", ""));
}

#[test]
fn contains_char_looks_through_the_set() {
    assert!(contains_char(" \t", '\t'));
    assert!(!contains_char(" \t", 'x'));
    assert!(!contains_char("", 'x'));
}

#[test]
fn matches_at_checks_one_position() {
    assert!(matches_at("a = b", " = ", 1));
    assert!(!matches_at("a = b", " = ", 0));
    assert!(!matches_at("a = b", " = ", 3));
    assert!(!matches_at("a = b", " = ", 100));
    assert!(matches_at("abc", "", 3));
    assert!(!matches_at("abc", "", 4));
}

#[test]
fn find_gives_the_first_position() {
    assert_eq!(find("a = b = c", " = "), Some(1));
    assert_eq!(find("a=b", " = "), None);
    assert_eq!(find("", " = "), None);
    assert_eq!(find(" = ", " = "), Some(0));
    assert_eq!(find("Ω , b", " , "), Some(1));
    assert_eq!(find("abc", ""), Some(0));
}

#[test]
fn split_on_cuts_at_each_separator() {
    assert_eq!(split_on("a , b , c", " , "), vec!["a", "b", "c"]);
    assert_eq!(split_on("abc", " , "), vec!["abc"]);
    assert_eq!(split_on("", " , "), vec![""]);
    assert_eq!(split_on(" , ", " , "), vec!["", ""]);
    assert_eq!(split_on("a , ", " , "), vec!["a", ""]);
    assert_eq!(split_on("a , , b", " , "), vec!["a", ", b"]);
    assert_eq!(split_on("a ,  , b", " , "), vec!["a", "", "b"]);
    assert_eq!(split_on("abc", ""), vec!["abc"]);
}

#[test]
fn split_on_agrees_with_std() {
    let samples = ["a = b", "a = b = c", " =  = ", "= = =", "x", "", " = a = "];
    for sample in samples {
        let expected: Vec<String> = sample.split(" = ").map(|part| part.to_string()).collect();
        assert_eq!(split_on(sample, " = "), expected);
    }
}

#[test]
fn trim_strips_both_ends() {
    assert_eq!(trim("\"c\"", "\""), "c");
    assert_eq!(trim("\"\"c\"\"\"", "\""), "c");
    assert_eq!(trim("\"", "\""), "");
    assert_eq!(trim("", "\""), "");
    assert_eq!(trim("a\"b", "\""), "a\"b");
    assert_eq!(trim(" \t a b\n", " \t\n\r"), "a b");
    assert_eq!(trim("abc", ""), "abc");
}
