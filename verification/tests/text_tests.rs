use vaulty::numfmt::{i64_to_dec, u64_to_dec, u64_to_dec_padded};
use vaulty::store::week_label;
use vaulty::text::{ascii_lower, contains_ci_exec, contains_substring, eq_ci, find_substring,
    str_le_exec};

#[test]
fn ascii_lower_folds_only_ascii_uppercase() {
    assert_eq!(ascii_lower(&"Derivative PRACTICE 3".to_string()), "derivative practice 3");
    assert_eq!(ascii_lower(&"already lower".to_string()), "already lower");
}

#[test]
fn substring_search_finds_first_occurrence() {
    let hay = "abcabc".to_string();
    assert_eq!(find_substring(&hay, &"bc".to_string()), Some(1));
    assert_eq!(find_substring(&hay, &"zz".to_string()), None);
    assert!(contains_substring(&hay, &"cab".to_string()));
    assert!(!contains_substring(&hay, &"cba".to_string()));
    assert!(contains_substring(&hay, &"".to_string()));
}

#[test]
fn case_insensitive_matching() {
    assert!(contains_ci_exec(&"Derivative Practice".to_string(), &"DERIV".to_string()));
    assert!(eq_ci(&"Calculus".to_string(), &"calculus".to_string()));
    assert!(!eq_ci(&"Calculus".to_string(), &"algebra".to_string()));
}

#[test]
fn lexicographic_order_on_strings() {
    assert!(str_le_exec(&"abc".to_string(), &"abd".to_string()));
    assert!(str_le_exec(&"ab".to_string(), &"abc".to_string()));
    assert!(!str_le_exec(&"b".to_string(), &"azzz".to_string()));
    assert!(str_le_exec(&"same".to_string(), &"same".to_string()));
}

#[test]
fn decimal_rendering() {
    assert_eq!(u64_to_dec(0), "0");
    assert_eq!(u64_to_dec(7), "7");
    assert_eq!(u64_to_dec(12345), "12345");
    assert_eq!(u64_to_dec_padded(7, 3), "007");
    assert_eq!(u64_to_dec_padded(12, 2), "12");
    assert_eq!(u64_to_dec_padded(1234, 2), "1234");
    assert_eq!(i64_to_dec(-42), "-42");
    assert_eq!(i64_to_dec(i64::MIN), "-9223372036854775808");
    assert_eq!(week_label(3), "week3");
    assert_eq!(week_label(-1), "week-1");
}
