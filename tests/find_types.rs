use std::collections::HashSet;

use lcmeta::{
    compute_coupon_probability, coverage_estimate, extract_type_token, get_true_types, insert_unique,
    is_modified_type, lines, nth_harmonic, scan_types,
};

fn set_of(v: &[String]) -> HashSet<String> {
    v.iter().cloned().collect()
}

fn strings(items: &[&str]) -> Vec<String> {
    items.iter().map(|s| s.to_string()).collect()
}

#[test]
fn test_get_true_types() {
    let mut found_types: Vec<String> = Vec::new();
    insert_unique(&mut found_types, "foo".into());
    insert_unique(&mut found_types, "bar".into());
    insert_unique(&mut found_types, "not[]".into());
    insert_unique(&mut found_types, "list<meow>".into());
    let res = get_true_types(found_types);
    let mut expected: HashSet<String> = HashSet::new();
    expected.insert("foo".into());
    expected.insert("bar".into());
    assert_eq!(set_of(&res), expected);
}

#[test]
fn normalize_drops_containers() {
    let res = get_true_types(strings(&["integer", "integer[]", "list<string>", "boolean"]));
    assert_eq!(set_of(&res), set_of(&strings(&["integer", "boolean"])));
}

#[test]
fn normalize_is_idempotent_on_values() {
    let once = get_true_types(strings(&["integer", "integer[]", "list<string>", "boolean", "string"]));
    let twice = get_true_types(once.clone());
    assert_eq!(set_of(&once), set_of(&twice));
    for t in &once {
        assert!(!t.contains("[]") && !t.contains("list"));
    }
}

#[test]
fn modifiers_match_anywhere() {
    assert!(is_modified_type(&"TreeNode[]".to_string()));
    assert!(is_modified_type(&"ListNode".to_string()) == false);
    assert!(is_modified_type(&"linked_list".to_string()));
    assert!(!is_modified_type(&"character".to_string()));
    assert!(get_true_types(Vec::new()).is_empty());
}

#[test]
fn insert_unique_keeps_one_copy() {
    let mut v: Vec<String> = Vec::new();
    insert_unique(&mut v, "integer".into());
    insert_unique(&mut v, "integer".into());
    insert_unique(&mut v, "string".into());
    assert_eq!(v, strings(&["integer", "string"]));
}

#[test]
fn token_from_type_line() {
    let line: Vec<char> = "  \"type\": \"integer\",".chars().collect();
    assert_eq!(extract_type_token(&line), Some("integer".to_string()));
    let other: Vec<char> = "  \"name\": \"nums\",".chars().collect();
    assert_eq!(extract_type_token(&other), None);
    let spaced: Vec<char> = "\"type\":\"integer\"".chars().collect();
    assert_eq!(extract_type_token(&spaced), None);
}

#[test]
fn token_is_second_to_last_quoted_piece() {
    let line: Vec<char> = "{\"type\": \"list<integer>\", \"size\": \"3\"}".chars().collect();
    assert_eq!(extract_type_token(&line), Some("3".to_string()));
    let bare: Vec<char> = "\"type\": \"".chars().collect();
    assert_eq!(extract_type_token(&bare), Some(": ".to_string()));
}

#[test]
fn scan_counts_matches_and_distinct_types() {
    let file_a = "{\n  \"name\": \"twoSum\",\n  \"params\": [\n    {\n      \"name\": \"nums\",\n      \"type\": \"integer[]\"\n    },\n    {\n      \"type\": \"integer\"\n    }\n  ],\n  \"return\": {\n    \"type\": \"integer[]\"\n  }\n}\n";
    let file_b = "{\r\n  \"type\": \"boolean\",\r\n  \"type\": \"integer\"\r\n}";
    let report = scan_types(&vec![file_a.to_string(), file_b.to_string()]);
    assert_eq!(report.matches, 5);
    assert_eq!(report.files, 2);
    assert_eq!(set_of(&report.types), set_of(&strings(&["integer[]", "integer", "boolean"])));
    assert_eq!(report.types.len(), 3);
}

#[test]
fn scan_single_line_file() {
    let report = scan_types(&vec!["  \"type\": \"integer\",".to_string()]);
    assert_eq!(report.matches, 1);
    assert_eq!(report.types, strings(&["integer"]));
}

#[test]
fn scan_of_nothing() {
    let report = scan_types(&Vec::new());
    assert_eq!(report.matches, 0);
    assert_eq!(report.files, 0);
    assert!(report.types.is_empty());
    let empty = scan_types(&vec![String::new()]);
    assert_eq!(empty.files, 1);
    assert_eq!(empty.matches, 0);
}

#[test]
fn lines_follow_str_lines() {
    for text in ["", "a", "a\n", "a\nb", "a\r\nb\r\n", "\n\n", "x\r", "a\n\nb"] {
        let chars: Vec<char> = text.chars().collect();
        let got: Vec<String> = lines(&chars).iter().map(|l| l.iter().collect()).collect();
        let expected: Vec<String> = text.lines().map(|l| l.to_string()).collect();
        assert_eq!(got, expected, "lines of {:?}", text);
    }
}

#[test]
fn harmonic_fractions() {
    assert_eq!(nth_harmonic(0), Some((0, 1)));
    assert_eq!(nth_harmonic(1), Some((1, 1)));
    // H(5) = 137/60, in lowest terms
    assert_eq!(nth_harmonic(5), Some((137, 60)));
    assert!(nth_harmonic(88).is_some());
    assert_eq!(nth_harmonic(89), None);
}

#[test]
fn estimate_for_empty_vocabulary() {
    // n = 1, H(1) = 1, c = 10, 100 / c = 10.00%
    let c = coverage_estimate(0, 10).unwrap();
    assert_eq!(c.inverse_c_hundredths, Some(1000));
    assert_eq!(c.recommended_sample, 20);
}

#[test]
fn estimate_for_four_types() {
    // n = 5, n * H(5) = 685/60 = 11.4166..., c = 8.759..., 100 / c = 11.4166...%
    let c = coverage_estimate(4, 100).unwrap();
    assert_eq!(c.inverse_c_hundredths, Some(1141));
    // 20 * 11.4166... = 228.33...
    assert_eq!(c.recommended_sample, 228);
}

#[test]
fn estimate_with_no_sample() {
    let c = coverage_estimate(3, 0).unwrap();
    assert_eq!(c.inverse_c_hundredths, None);
    // n = 4, H(4) = 25/12, 20 * 4 * 25/12 = 166.66...
    assert_eq!(c.recommended_sample, 166);
}

#[test]
fn estimate_for_large_vocabularies() {
    // n = 51: floor(10000 * 51 * H(51) / 1000) and floor(20 * 51 * H(51))
    let c = coverage_estimate(50, 1000).unwrap();
    assert_eq!(c.inverse_c_hundredths, Some(2304));
    assert_eq!(c.recommended_sample, 4609);
    let c = coverage_estimate(29, 10).unwrap();
    assert_eq!(c.inverse_c_hundredths, Some(119849));
    assert_eq!(c.recommended_sample, 2396);
    let c = coverage_estimate(71, 100).unwrap();
    assert_eq!(c.inverse_c_hundredths, Some(34997));
    assert_eq!(c.recommended_sample, 6999);
}

#[test]
fn estimate_too_large() {
    assert!(coverage_estimate(72, 100).is_none());
    assert!(coverage_estimate(usize::MAX, 1).is_none());
}

#[test]
fn coupon_probability_after_normalizing() {
    let report = compute_coupon_probability(strings(&["integer", "integer[]", "list<string>", "boolean", "string", "character", "TreeNode"]), 100);
    assert_eq!(report.true_types.len(), 5);
    let est = report.estimate.unwrap();
    // n = 6, H(6) = 49/20, n * H(6) = 14.7, 100 / c = 14.70%
    assert_eq!(est.inverse_c_hundredths, Some(1470));
    assert_eq!(est.recommended_sample, 294);
}

#[test]
fn bound_shrinks_as_sample_grows() {
    let small = coverage_estimate(10, 50).unwrap();
    let large = coverage_estimate(10, 500).unwrap();
    assert!(large.inverse_c_hundredths.unwrap() <= small.inverse_c_hundredths.unwrap());
    assert_eq!(small.recommended_sample, large.recommended_sample);
}

#[test]
fn estimate_grows_with_vocabulary() {
    let mut last = coverage_estimate(0, 100).unwrap();
    for v in 1..=71 {
        let next = coverage_estimate(v, 100).unwrap();
        assert!(next.recommended_sample >= last.recommended_sample + 20);
        assert!(next.inverse_c_hundredths.unwrap() >= last.inverse_c_hundredths.unwrap());
        last = next;
    }
}

#[test]
fn harmonic_grows() {
    let mut last = nth_harmonic(1).unwrap();
    for n in 2..=88 {
        let next = nth_harmonic(n).unwrap();
        assert!(next.0 >= next.1);
        // last.0 / last.1 <= next.0 / next.1, compared without overflow
        let lhs = (last.0 as f64) / (last.1 as f64);
        let rhs = (next.0 as f64) / (next.1 as f64);
        assert!(lhs < rhs);
        last = next;
    }
}
