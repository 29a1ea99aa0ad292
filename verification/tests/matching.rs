use regex_zero::engine::{do_matching, do_matching_with_cache};
use regex_zero::helper::{safe_add, SafeAdd};

#[test]
fn test_safe_add() {
    let n: usize = 10;
    assert_eq!(Some(30), n.safe_add(&20));

    let n: usize = !0; // the largest value
    assert_eq!(None, n.safe_add(&1));

    let mut n: usize = 10;
    assert!(safe_add(&mut n, &20, || ()).is_ok());

    let mut n: usize = !0;
    assert!(safe_add(&mut n, &1, || ()).is_err());
}

#[test]
fn test_matching() {
    // Parse Errors
    assert!(do_matching("+b", "bbb", true).is_err());
    assert!(do_matching("*b", "bbb", true).is_err());
    assert!(do_matching("|b", "bbb", true).is_err());
    assert!(do_matching("?b", "bbb", true).is_err());

    // Parse OK and Match OK
    assert!(do_matching("abc|def", "def", true).unwrap());
    assert!(do_matching("(abc)*", "abcabc", true).unwrap());
    assert!(do_matching("(ab|cd)+", "abcdcd", true).unwrap());
    assert!(do_matching("abc?", "ab", true).unwrap());

    // Parse OK and Match NG
    assert!(!do_matching("abc|def", "efa", true).unwrap());
    assert!(!do_matching("(ab|cd)+", "", true).unwrap());
    assert!(!do_matching("abc?", "acb", true).unwrap());
}

#[test]
fn test_matching_with_cache() {
    // Parse Errors
    assert!(do_matching_with_cache("+b", "bbb", true).is_err());
    assert!(do_matching_with_cache("*b", "bbb", true).is_err());
    assert!(do_matching_with_cache("|b", "bbb", true).is_err());
    assert!(do_matching_with_cache("?b", "bbb", true).is_err());

    // Parse OK and Match OK
    assert!(do_matching_with_cache("abc|def", "def", true).unwrap());
    assert!(do_matching_with_cache("(abc)*", "abcabc", true).unwrap());
    assert!(do_matching_with_cache("(ab|cd)+", "abcdcd", true).unwrap());
    assert!(do_matching_with_cache("abc?", "ab", true).unwrap());

    // Parse OK and Match NG
    assert!(!do_matching_with_cache("abc|def", "efa", true).unwrap());
    assert!(!do_matching_with_cache("(ab|cd)+", "", true).unwrap());
    assert!(!do_matching_with_cache("abc?", "acb", true).unwrap());
}
