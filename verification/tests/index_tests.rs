use file_finder::index::MatchIndex;

fn s(text: &str) -> String {
    text.to_string()
}

#[test]
fn a_new_index_is_empty() {
    let index = MatchIndex::new();
    assert!(index.is_empty());
    assert_eq!(index.extensions(), Vec::<String>::new());
    assert_eq!(index.get(&s("txt")), None);
}

#[test]
fn add_groups_paths_by_extension() {
    let mut index = MatchIndex::new();
    index.add(s("txt"), s("a.txt"));
    index.add(s("md"), s("b.md"));
    index.add(s("txt"), s("c.txt"));
    assert!(!index.is_empty());
    assert_eq!(index.extensions(), vec![s("txt"), s("md")]);
    assert_eq!(index.get(&s("txt")), Some(&vec![s("a.txt"), s("c.txt")]));
    assert_eq!(index.get(&s("md")), Some(&vec![s("b.md")]));
    assert_eq!(index.get(&s("rs")), None);
    assert_eq!(index.get(&s("TXT")), None);
}

#[test]
fn add_keeps_repeated_paths() {
    let mut index = MatchIndex::new();
    index.add(s("txt"), s("a.txt"));
    index.add(s("txt"), s("a.txt"));
    assert_eq!(index.get(&s("txt")), Some(&vec![s("a.txt"), s("a.txt")]));
    assert_eq!(index.extensions(), vec![s("txt")]);
}
