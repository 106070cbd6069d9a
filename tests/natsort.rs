use std::cmp::Ordering;

use anew::natsort::compare;

#[test]
fn numbers_compare_by_magnitude() {
    assert_eq!(compare("item2", "item10", false), Ordering::Less);
    assert_eq!(compare("item10", "item2", false), Ordering::Greater);
    assert_eq!(compare("x99", "x100", false), Ordering::Less);
}

#[test]
fn numbers_longer_than_a_machine_word() {
    assert_eq!(
        compare(
            "123456789012345678901234567890",
            "123456789012345678901234567891",
            false
        ),
        Ordering::Less
    );
    assert_eq!(compare("99999999999999999999999", "100000000000000000000000", false), Ordering::Less);
}

#[test]
fn leading_zeros_break_ties_only() {
    assert_eq!(compare("7", "007", false), Ordering::Less);
    assert_eq!(compare("007", "7", false), Ordering::Greater);
    assert_eq!(compare("007", "8", false), Ordering::Less);
    assert_eq!(compare("a07b", "a7c", false), Ordering::Greater);
}

#[test]
fn equal_strings_are_equal() {
    assert_eq!(compare("a", "a", false), Ordering::Equal);
    assert_eq!(compare("", "", false), Ordering::Equal);
    assert_eq!(compare("file007.txt", "file007.txt", false), Ordering::Equal);
}

#[test]
fn text_compares_by_code_point() {
    assert_eq!(compare("abc", "abd", false), Ordering::Less);
    assert_eq!(compare("ab", "abc", false), Ordering::Less);
    assert_eq!(compare("B", "a", false), Ordering::Less);
}

#[test]
fn digits_come_before_text_and_shorter_first() {
    assert_eq!(compare("a1", "ab", false), Ordering::Less);
    assert_eq!(compare("", "a", false), Ordering::Less);
    assert_eq!(compare("a", "", false), Ordering::Greater);
    assert_eq!(compare("1", "a", false), Ordering::Less);
}

#[test]
fn ignoring_case_folds_ascii_letters() {
    assert_eq!(compare("A", "a", true), Ordering::Equal);
    assert_eq!(compare("B", "a", true), Ordering::Greater);
    assert_eq!(compare("Item2", "item10", true), Ordering::Less);
}

#[test]
fn order_is_transitive_on_samples() {
    let xs = ["a", "a1", "a2", "a10", "a010", "ab", "b", ""];
    for a in xs.iter() {
        assert_eq!(compare(a, a, false), Ordering::Equal);
        for b in xs.iter() {
            for c in xs.iter() {
                if compare(a, b, false) == Ordering::Less && compare(b, c, false) == Ordering::Less {
                    assert_eq!(compare(a, c, false), Ordering::Less);
                }
            }
        }
    }
}
