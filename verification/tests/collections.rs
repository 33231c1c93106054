use sentrux::lists::chain_all;
use sentrux::report::{cat, cat3, cat4, cat5, join};
use sentrux::sorting::stable_sort;
use sentrux::table::{NameSet, Table};
use sentrux::text::{
    after_last, before, contains, decimal, ends_with, is_le, lines, measure, rsplit_once, split,
    starts_with, strip_prefix, strip_suffix, trim_end, trim_prefix, trim_start, CharClass,
};

fn strings(list: &[&str]) -> Vec<String> {
    list.iter().map(|s| s.to_string()).collect()
}

#[test]
fn tables_keep_the_order_of_insertion() {
    let mut t: Table<u32> = Table::new();
    t.insert("b".to_string(), 1);
    t.insert("a".to_string(), 2);
    t.insert("b".to_string(), 3);
    assert_eq!(t.len(), 2);
    assert_eq!((*t.value_at(0), *t.value_at(1)), (3, 2));
    assert!(t.contains_key("a"));
    assert!(!t.contains_key("c"));
    assert_eq!(t.get("b"), Some(&3));
}

#[test]
fn tables_of_lists_grow() {
    let mut t: Table<Vec<String>> = Table::new();
    t.append("k", "1");
    t.append("k", "2");
    t.extend("k", strings(&["3", "4"]));
    t.extend("new", strings(&["5"]));
    assert_eq!(t.get("k"), Some(&strings(&["1", "2", "3", "4"])));
    assert_eq!(t.get("new"), Some(&strings(&["5"])));
}

#[test]
fn sets_tell_what_is_new() {
    let mut s = NameSet::new();
    assert!(s.insert("x"));
    assert!(!s.insert("x"));
    assert!(s.contains("x"));
    let mut t: Table<NameSet> = Table::new();
    assert!(t.add("k", "x"));
    assert!(t.add("k", "y"));
    assert!(!t.add("k", "x"));
}

#[test]
fn sorting_is_stable() {
    let pairs: Vec<(String, String)> = [("a", "1"), ("bb", "2"), ("c", "3"), ("dd", "4"), ("e", "5")]
        .iter()
        .map(|(a, b)| (a.to_string(), b.to_string()))
        .collect();
    let sorted = stable_sort(pairs);
    let order: Vec<&str> = sorted.iter().map(|p| p.1.as_str()).collect();
    assert_eq!(order, vec!["2", "4", "1", "3", "5"]);
}

#[test]
fn texts_are_sorted_by_characters() {
    let sorted = stable_sort(strings(&["b", "", "ab", "é", "a", "Z"]));
    assert_eq!(sorted, strings(&["", "Z", "a", "ab", "b", "é"]));
    assert!(is_le("\u{ffff}", "\u{10000}"));
    assert!(!is_le("b", "a"));
}

#[test]
fn lists_are_joined() {
    let parts = vec![strings(&["a"]), Vec::new(), strings(&["b", "c"])];
    assert_eq!(chain_all(parts), strings(&["a", "b", "c"]));
    assert_eq!(join(&strings(&["a", "b", "c"]), ", "), "a, b, c");
    assert_eq!(join(&strings(&["a"]), ", "), "a");
    assert_eq!(join(&Vec::new(), ", "), "");
    assert_eq!(cat("a", "b"), "ab");
    assert_eq!(cat3("a", "b", "c"), "abc");
    assert_eq!(cat4("a", "b", "c", "d"), "abcd");
    assert_eq!(cat5("a", "b", "c", "d", "e"), "abcde");
}

#[test]
fn texts_are_cut() {
    let slash = CharClass::Only('/');
    assert_eq!(split("a//b", slash), strings(&["a", "", "b"]));
    assert_eq!(before("a/b", slash), "a");
    assert_eq!(after_last("a/b/c", slash), "c");
    assert_eq!(after_last("abc", slash), "abc");
    assert_eq!(rsplit_once("a/b/c", slash), Some(("a/b", "c")));
    assert_eq!(rsplit_once("abc", slash), None);
    assert_eq!(trim_start("//a/", slash), "a/");
    assert_eq!(trim_end("/a//", slash), "/a");
    assert_eq!(trim_prefix("././a", "./"), "a");
    assert_eq!(strip_prefix("abc", "ab"), Some("c"));
    assert_eq!(strip_suffix("abc", "bc"), Some("a"));
    assert_eq!(strip_suffix("abc", "x"), None);
    assert!(starts_with("abc", ""));
    assert!(ends_with("abc", "c"));
    assert!(contains("abc", "bc"));
    assert!(!contains("abc", "ac"));
}

#[test]
fn lines_end_at_newlines() {
    assert_eq!(lines("a\r\nb\n\nc\r"), strings(&["a", "b", "", "c\r"]));
    assert_eq!(lines(""), Vec::<String>::new());
    assert_eq!(lines("\n"), strings(&[""]));
}

#[test]
fn numbers_are_written_in_decimal() {
    for n in [0u64, 7, 10, 123456, u64::MAX] {
        assert_eq!(decimal(n), n.to_string());
    }
    assert_eq!(measure("aé→"), 6);
}
