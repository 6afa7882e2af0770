use std::collections::HashMap;

use rust_py_tools::edit_distance::{
    edit_distance, fuzzy_match, string_similarity, Cutoff, InvalidArgument, Similarity,
};

fn ratio(s: &Similarity) -> f64 {
    if s.longest == 0 {
        return 1.0;
    }
    1.0 - s.distance as f64 / s.longest as f64
}

fn distance(a: &str, b: &str) -> usize {
    edit_distance(&String::from(a), &String::from(b))
}

fn similarity(a: &str, b: &str) -> f64 {
    ratio(&string_similarity(&String::from(a), &String::from(b)))
}

#[test]
fn edit_distance_test0() {
    let s1 = String::from("柱钢筋绑扎");
    let s2 = String::from("划线、剪切");
    assert_eq!(edit_distance(&s1, &s2), 5);
}

#[test]
fn edit_distance_test1() {
    let s1 = String::from("horse");
    let s2 = String::from("ros");
    assert_eq!(edit_distance(&s1, &s2), 3);
}

#[test]
fn edit_distance_test2() {
    let s1 = String::from("intention");
    let s2 = String::from("execution");
    assert_eq!(edit_distance(&s1, &s2), 5);
}

#[test]
fn edit_distance_test3() {
    let s1 = String::from("");
    let s2 = String::from("");
    assert_eq!(edit_distance(&s1, &s2), 0);
}

#[test]
fn edit_distance_test4() {
    let s1 = String::from("a");
    let s2 = String::from("b");
    assert_eq!(edit_distance(&s1, &s2), 1);
}

#[test]
fn edit_distance_test5() {
    let s1 = String::from("pneumonoultramicroscopicsilicovolcanoconiosis");
    let s2 = String::from("ultramicroscopically");
    assert_eq!(edit_distance(&s1, &s2), 27);
}

#[test]
fn string_tools_test0() {
    assert_eq!(distance("柱钢筋绑扎", "划线、剪切"), 5);
}

#[test]
fn string_tools_test1() {
    assert_eq!(distance("horse", "ros"), 3);
}

#[test]
fn string_tools_test2() {
    assert_eq!(distance("intention", "execution"), 5);
}

#[test]
fn string_tools_test3() {
    assert_eq!(distance("", ""), 0);
}

#[test]
fn string_tools_test4() {
    assert_eq!(distance("a", "b"), 1);
}

#[test]
fn string_tools_test5() {
    assert_eq!(
        distance("pneumonoultramicroscopicsilicovolcanoconiosis", "ultramicroscopically"),
        27
    );
}

#[test]
fn string_similarity_test0() {
    let s1 = String::from("柱钢筋绑扎");
    let s2 = String::from("划线、剪切");
    assert_eq!(ratio(&string_similarity(&s1, &s2)), 0.0);
}

#[test]
fn string_similarity_test1() {
    let s1 = String::from("horse");
    let s2 = String::from("ros");
    assert_eq!(ratio(&string_similarity(&s1, &s2)), 0.4);
}

#[test]
fn string_similarity_test2() {
    let s1 = String::from("intention");
    let s2 = String::from("execution");
    assert_eq!(ratio(&string_similarity(&s1, &s2)), 4.0 / 9.0);
}

#[test]
fn string_similarity_test3() {
    let s1 = String::from("");
    let s2 = String::from("");
    assert_eq!(ratio(&string_similarity(&s1, &s2)), 1.0);
}

#[test]
fn string_similarity_test4() {
    let s1 = String::from("a");
    let s2 = String::from("b");
    assert_eq!(ratio(&string_similarity(&s1, &s2)), 0.0);
}

#[test]
fn string_similarity_test5() {
    let s1 = String::from("pneumonoultramicroscopicsilicovolcanoconiosis");
    let s2 = String::from("ultramicroscopically");
    assert_eq!(ratio(&string_similarity(&s1, &s2)), 0.4);
}

#[test]
fn fuzzy_match_test0() {
    let first_list = vec![
        "柱钢筋绑扎".to_string(),
        "horse".to_string(),
        "".to_string(),
        "a".to_string(),
    ];
    let second_list = vec!["划线、剪切".to_string(), "avc".to_string()];
    let std_result: HashMap<(String, String), f64> = HashMap::from([
        (("柱钢筋绑扎".to_string(), "划线、剪切".to_string()), 0.0),
        (("柱钢筋绑扎".to_string(), "avc".to_string()), 0.0),
        (("horse".to_string(), "划线、剪切".to_string()), 0.0),
        (("horse".to_string(), "avc".to_string()), 0.0),
        (("".to_string(), "划线、剪切".to_string()), 0.0),
        (("".to_string(), "avc".to_string()), 0.0),
        (("a".to_string(), "划线、剪切".to_string()), 0.0),
        (("a".to_string(), "avc".to_string()), 1.0 - 2.0 / 3.0),
    ]);
    let matched = fuzzy_match(first_list, second_list, Cutoff { num: 0, den: 1 }).unwrap();
    assert_eq!(matched.len(), 8);
    for ma in &matched {
        let first = ma.first.to_string();
        let second = ma.second.to_string();
        let std_res = std_result.get(&(first, second)).unwrap();
        assert_eq!(&ratio(&ma.ratio), std_res)
    }
}

#[test]
fn distance_to_itself_is_zero() {
    for s in ["", "a", "horse", "柱钢筋绑扎", "abcabc"] {
        assert_eq!(distance(s, s), 0);
    }
}

#[test]
fn distance_is_symmetric() {
    let words = ["", "a", "horse", "ros", "intention", "execution", "划线、剪切"];
    for a in words {
        for b in words {
            assert_eq!(distance(a, b), distance(b, a));
        }
    }
}

#[test]
fn distance_lies_between_length_gap_and_longer_length() {
    let words = ["", "ab", "horse", "ros", "kitten", "sitting", "柱钢筋绑扎"];
    for a in words {
        for b in words {
            let (m, n) = (a.chars().count(), b.chars().count());
            let d = distance(a, b);
            assert!(d <= m.max(n));
            assert!(d >= m.abs_diff(n));
        }
    }
}

#[test]
fn distance_counts_code_points_not_bytes() {
    assert_eq!(distance("é", "e"), 1);
    assert_eq!(distance("", "柱钢筋"), 3);
    assert_eq!(distance("kitten", "sitting"), 3);
}

#[test]
fn similarity_of_equal_strings_is_one() {
    assert_eq!(similarity("", ""), 1.0);
    assert_eq!(similarity("horse", "horse"), 1.0);
    assert_eq!(similarity("柱钢筋绑扎", "柱钢筋绑扎"), 1.0);
    assert_eq!(
        string_similarity(&String::from("ab"), &String::from("abc")),
        Similarity { distance: 1, longest: 3 }
    );
}

#[test]
fn similarity_threshold_is_exact() {
    let s = string_similarity(&String::from("horse"), &String::from("ros"));
    assert!(s.at_least(&Cutoff { num: 2, den: 5 }));
    assert!(!s.at_least(&Cutoff { num: 401, den: 1000 }));
    let empty = string_similarity(&String::new(), &String::new());
    assert!(empty.at_least(&Cutoff { num: 1, den: 1 }));
}

#[test]
fn cutoff_range() {
    assert!(Cutoff { num: 0, den: 1 }.in_range());
    assert!(Cutoff { num: 7, den: 7 }.in_range());
    assert!(!Cutoff { num: -1, den: 2 }.in_range());
    assert!(!Cutoff { num: 3, den: 2 }.in_range());
    assert!(!Cutoff { num: 0, den: 0 }.in_range());
}

#[test]
fn fuzzy_match_rejects_cutoff_outside_unit_interval() {
    let bad = [
        Cutoff { num: -1, den: 10 },
        Cutoff { num: 11, den: 10 },
        Cutoff { num: 1, den: 0 },
    ];
    for cutoff in bad {
        let r = fuzzy_match(vec!["a".to_string()], vec!["a".to_string()], cutoff);
        assert_eq!(r.err(), Some(InvalidArgument { cutoff }));
    }
}

#[test]
fn fuzzy_match_single_pair() {
    let r = fuzzy_match(vec!["a".to_string()], vec!["avc".to_string()], Cutoff { num: 0, den: 1 })
        .unwrap();
    assert_eq!(r.len(), 1);
    assert_eq!(r[0].first, "a");
    assert_eq!(r[0].second, "avc");
    assert_eq!(ratio(&r[0].ratio), 1.0 - 2.0 / 3.0);
    let r = fuzzy_match(vec!["a".to_string()], vec!["avc".to_string()], Cutoff { num: 1, den: 2 })
        .unwrap();
    assert!(r.is_empty());
}

#[test]
fn fuzzy_match_keeps_order_and_duplicates() {
    let first = vec!["ab".to_string(), "xy".to_string(), "ab".to_string()];
    let second = vec!["ab".to_string(), "abc".to_string(), "zz".to_string()];
    let r = fuzzy_match(first.clone(), second.clone(), Cutoff { num: 1, den: 2 }).unwrap();
    let pairs: Vec<(&str, &str)> = r.iter().map(|m| (m.first.as_str(), m.second.as_str())).collect();
    assert_eq!(pairs, vec![("ab", "ab"), ("ab", "abc"), ("ab", "ab"), ("ab", "abc")]);
    assert!(r.len() <= first.len() * second.len());
    for m in &r {
        assert!(ratio(&m.ratio) >= 0.5);
    }
    let all = fuzzy_match(first, second, Cutoff { num: 0, den: 1 }).unwrap();
    assert_eq!(all.len(), 9);
}

#[test]
fn fuzzy_match_empty_lists() {
    let r = fuzzy_match(Vec::new(), vec!["a".to_string()], Cutoff { num: 0, den: 1 }).unwrap();
    assert!(r.is_empty());
    let r = fuzzy_match(vec!["a".to_string()], Vec::new(), Cutoff { num: 0, den: 1 }).unwrap();
    assert!(r.is_empty());
}
