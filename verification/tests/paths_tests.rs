use file_finder::paths::{
    begins_with_dot, extension_of, file_name_chars, file_name_of, file_name_start, find_last,
};

fn chars(s: &str) -> Vec<char> {
    s.chars().collect()
}

#[test]
fn file_name_is_the_last_segment() {
    assert_eq!(file_name_of("dir/sub/file.txt"), "file.txt");
    assert_eq!(file_name_of("file.txt"), "file.txt");
    assert_eq!(file_name_of("/file.txt"), "file.txt");
    assert_eq!(file_name_of("dir/"), "");
    assert_eq!(file_name_of(""), "");
    assert_eq!(file_name_of("dir.d/name"), "name");
    assert_eq!(file_name_chars("a/bé"), vec!['b', 'é']);
    assert_eq!(file_name_start(&chars("ab/cd")), 3);
    assert_eq!(file_name_start(&chars("abcd")), 0);
}

#[test]
fn last_position_of_a_character() {
    assert_eq!(find_last(&chars("a.b.c"), '.', 0, 5), Some(3));
    assert_eq!(find_last(&chars("a.b.c"), '.', 0, 3), Some(1));
    assert_eq!(find_last(&chars("a.b.c"), '.', 2, 5), Some(1));
    assert_eq!(find_last(&chars("a.b.c"), '.', 4, 5), None);
    assert_eq!(find_last(&chars("abc"), '.', 0, 3), None);
    assert_eq!(find_last(&chars(""), '.', 0, 0), None);
}

#[test]
fn extension_is_the_text_behind_the_last_dot() {
    assert_eq!(extension_of("dir/file.txt"), Some("txt".to_string()));
    assert_eq!(extension_of("archive.tar.gz"), Some("gz".to_string()));
    assert_eq!(extension_of("a.b"), Some("b".to_string()));
    assert_eq!(extension_of("dir/.hidden.md"), Some("md".to_string()));
    assert_eq!(extension_of("photo.JPG"), Some("JPG".to_string()));
}

#[test]
fn some_names_have_no_extension() {
    assert_eq!(extension_of("Makefile"), None);
    assert_eq!(extension_of("dir.d/Makefile"), None);
    assert_eq!(extension_of(".bashrc"), None);
    assert_eq!(extension_of("dir/.bashrc"), None);
    assert_eq!(extension_of("name."), None);
    assert_eq!(extension_of("a.b."), None);
    assert_eq!(extension_of("."), None);
    assert_eq!(extension_of(".."), None);
    assert_eq!(extension_of(""), None);
    assert_eq!(extension_of("dir/"), None);
}

#[test]
fn names_that_begin_with_a_dot() {
    assert!(begins_with_dot(".git"));
    assert!(begins_with_dot("."));
    assert!(begins_with_dot(".."));
    assert!(begins_with_dot(".a.txt"));
    assert!(!begins_with_dot(""));
    assert!(!begins_with_dot("a.txt"));
    assert!(!begins_with_dot("a."));
}
