use file_picker::listing::{sort_by_keys, sort_entries, sorts_before, sorts_before_by_key, str_less, Entry};

fn entry(name: &str, is_dir: bool) -> Entry {
    Entry::new(name.to_string(), format!("/d/{}", name), is_dir)
}

fn names(v: &[Entry]) -> Vec<String> {
    v.iter().map(|e| e.name.clone()).collect()
}

#[test]
fn sort_dirs_first_then_case_insensitive() {
    let v = vec![
        entry("b.txt", false),
        entry("A", true),
        entry("a.txt", false),
        entry("B", true),
    ];
    let r = sort_entries(v);
    assert_eq!(names(&r), vec!["A", "B", "a.txt", "b.txt"]);
}

#[test]
fn sort_uses_lowercase_names() {
    // Byte order would put "B" before "a".
    let r = sort_entries(vec![entry("B", true), entry("a", true)]);
    assert_eq!(names(&r), vec!["a", "B"]);
}

#[test]
fn sort_is_stable_for_equal_keys() {
    let r = sort_entries(vec![entry("x", false), entry("X", false), entry("d", true)]);
    assert_eq!(names(&r), vec!["d", "x", "X"]);
}

#[test]
fn sort_empty_listing() {
    assert!(sort_entries(Vec::new()).is_empty());
}

#[test]
fn sort_keeps_paths_and_kinds() {
    let r = sort_entries(vec![entry("f", false), entry("g", true)]);
    assert_eq!(r[0].path, "/d/g");
    assert!(r[0].is_dir);
    assert_eq!(r[1].path, "/d/f");
    assert!(!r[1].is_dir);
}

#[test]
fn str_less_is_lexicographic() {
    assert!(str_less("abc", "abd"));
    assert!(!str_less("abd", "abc"));
    assert!(str_less("ab", "abc"));
    assert!(!str_less("abc", "ab"));
    assert!(!str_less("abc", "abc"));
    assert!(str_less("", "a"));
    assert!(!str_less("", ""));
}

#[test]
fn key_order_puts_directories_first() {
    assert!(sorts_before_by_key(true, "z", false, "a"));
    assert!(!sorts_before_by_key(false, "a", true, "z"));
    assert!(sorts_before_by_key(false, "a.txt", false, "b.txt"));
    assert!(!sorts_before_by_key(true, "b", true, "b"));
}

#[test]
fn entries_compare_by_kind_then_lowercase_name() {
    assert!(sorts_before(&entry("Zeta", true), &entry("alpha", false)));
    assert!(sorts_before(&entry("alpha", false), &entry("Beta", false)));
    assert!(!sorts_before(&entry("Beta", false), &entry("alpha", false)));
}

#[test]
fn sort_by_given_keys() {
    let v = vec![entry("f1", false), entry("d1", true), entry("f2", false), entry("d2", true)];
    let keys = vec!["b".to_string(), "z".to_string(), "a".to_string(), "y".to_string()];
    let r = sort_by_keys(v, keys);
    assert_eq!(names(&r), vec!["d2", "d1", "f2", "f1"]);
}

#[test]
fn sort_by_equal_keys_keeps_order() {
    let v = vec![entry("p", false), entry("q", false), entry("r", false)];
    let keys = vec!["k".to_string(), "k".to_string(), "a".to_string()];
    assert_eq!(names(&sort_by_keys(v, keys)), vec!["r", "p", "q"]);
}
