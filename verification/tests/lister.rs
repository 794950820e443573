use gallery_core::lister::FileEntry;
use gallery_core::lister::sort_entries;

fn entry(name: &str, is_dir: bool) -> FileEntry {
    FileEntry::new(name.to_string(), is_dir)
}

fn names(v: &[FileEntry]) -> Vec<String> {
    v.iter().map(|e| e.name.clone()).collect()
}

#[test]
fn sorts_by_name_ascending() {
    let mut v = vec![
        entry("pictures", true),
        entry("a.png", false),
        entry("notes.txt", false),
        entry("b.jpg", false),
    ];
    sort_entries(&mut v);
    assert_eq!(names(&v), vec!["a.png", "b.jpg", "notes.txt", "pictures"]);
    assert!(v[3].is_dir);
    assert!(!v[0].is_dir);
}

#[test]
fn keeps_is_dir_with_its_name() {
    let mut v = vec![entry("dir", true), entry("file", false), entry("also", false)];
    sort_entries(&mut v);
    assert_eq!(v[0].name, "also");
    assert!(!v[0].is_dir);
    assert_eq!(v[1].name, "dir");
    assert!(v[1].is_dir);
    assert_eq!(v[2].name, "file");
    assert!(!v[2].is_dir);
}

#[test]
fn empty_listing_stays_empty() {
    let mut v: Vec<FileEntry> = Vec::new();
    sort_entries(&mut v);
    assert!(v.is_empty());
}

#[test]
fn single_entry_is_kept() {
    let mut v = vec![entry("only", false)];
    sort_entries(&mut v);
    assert_eq!(names(&v), vec!["only"]);
}

#[test]
fn orders_by_character_value_uppercase_first() {
    let mut v = vec![entry("apple", false), entry("Zebra", false), entry("banana", false)];
    sort_entries(&mut v);
    assert_eq!(names(&v), vec!["Zebra", "apple", "banana"]);
}

#[test]
fn prefix_comes_before_extension() {
    let mut v = vec![entry("ab", false), entry("a", false), entry("abc", false)];
    sort_entries(&mut v);
    assert_eq!(names(&v), vec!["a", "ab", "abc"]);
}

#[test]
fn equal_names_are_both_kept() {
    let mut v = vec![entry("same", true), entry("same", false), entry("aaa", false)];
    sort_entries(&mut v);
    assert_eq!(names(&v), vec!["aaa", "same", "same"]);
    let dirs: Vec<bool> = v.iter().map(|e| e.is_dir).collect();
    assert_eq!(dirs.iter().filter(|d| **d).count(), 1);
}

#[test]
fn already_sorted_input_is_unchanged() {
    let mut v = vec![entry("a", false), entry("b", true), entry("c", false)];
    sort_entries(&mut v);
    assert_eq!(names(&v), vec!["a", "b", "c"]);
    assert!(v[1].is_dir);
}

#[test]
fn reverse_sorted_input_is_reversed() {
    let mut v = vec![entry("c", false), entry("b", false), entry("a", false)];
    sort_entries(&mut v);
    assert_eq!(names(&v), vec!["a", "b", "c"]);
}
