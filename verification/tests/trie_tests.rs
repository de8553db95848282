use luminol_fs::trie::FileSystemTrie;

#[test]
fn trie_files_and_directories() {
    let mut t: FileSystemTrie<u32> = FileSystemTrie::new();
    assert_eq!(t.create_file("a/b/c.txt", 1), None);
    assert_eq!(t.create_file("a/b/c.txt", 2), Some(1));
    assert_eq!(t.create_file("a/d.txt", 3), None);
    assert!(t.contains_dir(""));
    assert!(t.contains_dir("a"));
    assert!(t.contains_dir("a/b"));
    assert!(!t.contains_dir("a/b/c.txt"));
    assert!(t.contains_file("a/b/c.txt"));
    assert!(!t.contains_file("a/b"));
    assert!(t.contains("a/b"));
    assert_eq!(t.get_file("a/b/c.txt"), Some(&2));
    assert_eq!(t.get_file("a/x"), None);
    assert_eq!(t.get_dir_size("a"), Some(2));
    assert_eq!(t.get_dir_size("a/b"), Some(1));
    assert_eq!(t.get_dir_size("zzz"), None);
    let mut children: Vec<(String, Option<u32>)> =
        t.iter_dir("a").unwrap().into_iter().map(|(n, v)| (n, v.copied())).collect();
    children.sort();
    assert_eq!(children, vec![("b".to_string(), None), ("d.txt".to_string(), Some(3))]);
    let all: Vec<(String, u32)> = t.iter_prefix("a").unwrap().into_iter().map(|(p, v)| (p, *v)).collect();
    assert_eq!(all, vec![("a/b/c.txt".to_string(), 2), ("a/d.txt".to_string(), 3)]);
    assert_eq!(t.get_dir_prefix("a/b/q/r"), "a/b".to_string());
    assert_eq!(t.get_dir_prefix("x/y"), "".to_string());
    assert_eq!(*t.get_or_create_file("a/e.txt", 9), 9);
    assert_eq!(*t.get_or_create_file("a/e.txt", 10), 9);
    assert_eq!(t.remove_file("a/d.txt"), Some(3));
    assert_eq!(t.remove_file("a/d.txt"), None);
    t.create_dir("q/r/s");
    assert!(t.contains_dir("q/r"));
    assert!(t.remove_dir("a"));
    assert!(!t.contains_dir("a/b"));
    assert!(!t.contains_file("a/b/c.txt"));
    assert!(t.contains_dir("q/r/s"));
    assert!(!t.remove_dir("a"));
    assert!(t.remove_dir(""));
    assert!(!t.contains_dir("q"));
}

#[test]
fn trie_values_change_in_place() {
    let mut t: FileSystemTrie<Vec<u8>> = FileSystemTrie::new();
    assert_eq!(t.create_file("data/x", vec![1]), None);
    assert_eq!(t.create_file("data/y", vec![2]), None);
    t.get_file_mut("data/x").push(7);
    assert_eq!(t.get_file("data/x"), Some(&vec![1, 7]));
    assert_eq!(t.get_file("data/y"), Some(&vec![2]));
    let all: Vec<String> = t.iter_prefix("data").unwrap().into_iter().map(|(p, _)| p).collect();
    assert_eq!(all, vec!["data/x".to_string(), "data/y".to_string()]);
    assert_eq!(t.iter_prefix("nothing"), None);
    assert_eq!(t.get_dir_size(""), Some(1));
    assert!(t.contains("data"));
    assert!(t.contains("data/x"));
    assert!(!t.contains("data/z"));
}
