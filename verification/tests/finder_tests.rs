use file_finder::finder::{find, holds_text, Finder};
use file_finder::listing::{reached_through_hidden, WalkEntry};

fn s(text: &str) -> String {
    text.to_string()
}

fn dir(path: &str, depth: usize) -> Option<WalkEntry> {
    Some(WalkEntry { path: s(path), depth, is_file: false })
}

fn file(path: &str, depth: usize) -> Option<WalkEntry> {
    Some(WalkEntry { path: s(path), depth, is_file: true })
}

fn tree() -> Vec<Option<WalkEntry>> {
    vec![
        dir("root", 0),
        file("root/a.txt", 1),
        dir("root/.git", 1),
        file("root/.git/notes.txt", 2),
        dir("root/.git/objects", 2),
        file("root/.git/objects/pack.txt", 3),
        file("root/b.md", 1),
        dir("root/docs", 1),
        file("root/docs/c.txt", 2),
        file("root/docs/.secret.txt", 2),
        None,
        file("root/docs/d.rs", 2),
        dir("root/docs/old.txt", 2),
        file("root/docs/old.txt/e.TXT", 3),
        file("root/docs/old.txt/f.txt", 3),
        file("root/README", 1),
        file("root/z.md", 1),
    ]
}

fn sorted(mut list: Vec<String>) -> Vec<String> {
    list.sort();
    list
}

#[test]
fn new_splits_the_filter_on_bars() {
    let finder = Finder::new(s("root"), s("a|b|c"));
    assert_eq!(finder.exts().len(), 3);
    assert_eq!(finder.exts(), &vec![s("a"), s("b"), s("c")]);
    assert_eq!(finder.path(), "root");
    assert_eq!(finder.get_all(), Vec::<String>::new());
}

#[test]
fn new_with_an_empty_filter_has_one_empty_entry() {
    let finder = Finder::new(s("root"), s(""));
    assert_eq!(finder.exts(), &vec![s("")]);
}

#[test]
fn an_empty_filter_matches_no_file() {
    let mut finder = Finder::new(s("root"), s(""));
    assert!(!finder.accepts("root/a.txt"));
    assert!(!finder.accepts("root/name."));
    assert!(!finder.accepts("root/README"));
    assert!(finder.find(&tree()).is_err());
    assert!(finder.find(&vec![file("root/name.", 0)]).is_err());
}

#[test]
fn accepts_goes_by_the_exact_extension() {
    let finder = Finder::new(s("root"), s("txt|md"));
    assert!(finder.accepts("a.txt"));
    assert!(finder.accepts("dir/b.md"));
    assert!(finder.accepts("x.tar.md"));
    assert!(!finder.accepts("a.TXT"));
    assert!(!finder.accepts("a.txt2"));
    assert!(!finder.accepts("txt"));
    assert!(!finder.accepts("a.rs"));
    assert!(!finder.accepts("dir.txt/file"));
    assert!(!finder.accepts(".txt"));
}

#[test]
fn holds_text_looks_for_the_whole_text() {
    let list = vec![s("txt"), s(""), s("md")];
    assert!(holds_text(&list, &s("md")));
    assert!(holds_text(&list, &s("")));
    assert!(!holds_text(&list, &s("m")));
    assert!(!holds_text(&Vec::new(), &s("")));
}

#[test]
fn find_lists_matches_in_listing_order() {
    let mut finder = Finder::new(s("root"), s("txt|md"));
    let index = finder.find(&tree()).unwrap();
    assert_eq!(
        finder.get_all(),
        vec![s("root/a.txt"), s("root/b.md"), s("root/docs/c.txt"), s("root/docs/old.txt/f.txt"), s("root/z.md")]
    );
    assert_eq!(index.extensions(), vec![s("txt"), s("md")]);
    assert_eq!(
        index.get(&s("txt")),
        Some(&vec![s("root/a.txt"), s("root/docs/c.txt"), s("root/docs/old.txt/f.txt")])
    );
    assert_eq!(index.get(&s("md")), Some(&vec![s("root/b.md"), s("root/z.md")]));
    assert_eq!(index.get(&s("rs")), None);
}

#[test]
fn find_leaves_out_hidden_entries_and_what_lies_below_them() {
    let mut finder = Finder::new(s("root"), s("txt"));
    finder.find(&tree()).unwrap();
    let all = finder.get_all();
    assert!(!all.contains(&s("root/.git/notes.txt")));
    assert!(!all.contains(&s("root/.git/objects/pack.txt")));
    assert!(!all.contains(&s("root/docs/.secret.txt")));
    assert!(all.contains(&s("root/docs/c.txt")));
}

#[test]
fn find_under_the_current_directory_finds_files() {
    let items = vec![
        dir(".", 0),
        file("./a.txt", 1),
        dir("./src", 1),
        file("./src/b.txt", 2),
        dir("./.git", 1),
        file("./.git/c.txt", 2),
        file("./.d.txt", 1),
    ];
    let mut finder = Finder::new(s("."), s("txt"));
    finder.find(&items).unwrap();
    assert_eq!(finder.get_all(), vec![s("./a.txt"), s("./src/b.txt")]);
}

#[test]
fn find_under_a_root_with_a_dot_name_finds_files() {
    let items = vec![dir(".cfg", 0), file(".cfg/a.txt", 1)];
    let mut finder = Finder::new(s(".cfg"), s("txt"));
    let index = finder.find(&items).unwrap();
    assert_eq!(finder.get_all(), vec![s(".cfg/a.txt")]);
    assert_eq!(index.get(&s("txt")), Some(&vec![s(".cfg/a.txt")]));

    let items = vec![
        dir("/home/me/.config", 0),
        file("/home/me/.config/a.txt", 1),
        dir("/home/me/.config/.cache", 1),
        file("/home/me/.config/.cache/b.txt", 2),
        dir("/home/me/.config/app", 1),
        file("/home/me/.config/app/c.txt", 2),
    ];
    let mut finder = Finder::new(s("/home/me/.config"), s("txt"));
    finder.find(&items).unwrap();
    assert_eq!(
        finder.get_all(),
        vec![s("/home/me/.config/a.txt"), s("/home/me/.config/app/c.txt")]
    );

    let items = vec![dir("..", 0), file("../a.txt", 1), file("../.b.txt", 1)];
    let mut finder = Finder::new(s(".."), s("txt"));
    finder.find(&items).unwrap();
    assert_eq!(finder.get_all(), vec![s("../a.txt")]);
}

#[test]
fn find_takes_a_root_that_is_a_file_whatever_its_name() {
    let mut finder = Finder::new(s("dir/.notes.txt"), s("txt"));
    finder.find(&vec![file("dir/.notes.txt", 0)]).unwrap();
    assert_eq!(finder.get_all(), vec![s("dir/.notes.txt")]);
}

#[test]
fn find_goes_on_after_a_hidden_directory_ends() {
    let items = vec![
        dir("r", 0),
        dir("r/.h", 1),
        file("r/.h/x.txt", 2),
        dir("r/v", 1),
        file("r/v/y.txt", 2),
        dir("r/v/.k", 2),
        file("r/v/.k/z.txt", 3),
        file("r/v/w.txt", 2),
        file("r/u.txt", 1),
    ];
    let mut finder = Finder::new(s("r"), s("txt"));
    finder.find(&items).unwrap();
    assert_eq!(finder.get_all(), vec![s("r/v/y.txt"), s("r/v/w.txt"), s("r/u.txt")]);
}

#[test]
fn find_skips_directories_and_unreadable_entries() {
    let items = vec![dir("r", 0), None, dir("r/d.txt", 1), None, file("r/d.txt/a.txt", 2), None];
    let mut finder = Finder::new(s("r"), s("txt"));
    finder.find(&items).unwrap();
    assert_eq!(finder.get_all(), vec![s("r/d.txt/a.txt")]);
}

#[test]
fn find_is_case_sensitive() {
    let items = vec![dir("r", 0), file("r/a.TXT", 1), file("r/b.Txt", 1)];
    let mut finder = Finder::new(s("r"), s("txt"));
    assert!(finder.find(&items).is_err());
    let mut finder = Finder::new(s("r"), s("TXT"));
    finder.find(&items).unwrap();
    assert_eq!(finder.get_all(), vec![s("r/a.TXT")]);
}

#[test]
fn find_in_an_empty_tree_finds_nothing() {
    let mut finder = Finder::new(s("root"), s("txt"));
    assert!(finder.find(&Vec::new()).is_err());
    assert!(finder.find(&vec![dir("root", 0)]).is_err());
    assert_eq!(finder.get_all(), Vec::<String>::new());
}

#[test]
fn find_with_a_filter_that_matches_nothing_finds_nothing() {
    let mut finder = Finder::new(s("root"), s("exe|dll"));
    assert!(finder.find(&tree()).is_err());
    assert_eq!(finder.get_all(), Vec::<String>::new());
}

#[test]
fn find_twice_gives_the_same_paths() {
    let mut finder = Finder::new(s("root"), s("txt|md"));
    finder.find(&tree()).unwrap();
    let first = finder.get_all();
    finder.find(&tree()).unwrap();
    assert_eq!(finder.get_all(), first);
}

#[test]
fn find_in_another_order_gives_the_same_set() {
    let one = vec![
        dir("r", 0),
        file("r/a.txt", 1),
        dir("r/.h", 1),
        file("r/.h/x.txt", 2),
        dir("r/d", 1),
        file("r/d/b.txt", 2),
        file("r/d/c.md", 2),
        file("r/e.txt", 1),
    ];
    let other = vec![
        dir("r", 0),
        file("r/e.txt", 1),
        dir("r/d", 1),
        file("r/d/c.md", 2),
        file("r/d/b.txt", 2),
        dir("r/.h", 1),
        file("r/.h/x.txt", 2),
        file("r/a.txt", 1),
    ];
    let mut finder = Finder::new(s("r"), s("txt"));
    finder.find(&one).unwrap();
    let first = finder.get_all();
    finder.find(&other).unwrap();
    let second = finder.get_all();
    assert_eq!(first, vec![s("r/a.txt"), s("r/d/b.txt"), s("r/e.txt")]);
    assert_eq!(second, vec![s("r/e.txt"), s("r/d/b.txt"), s("r/a.txt")]);
    assert_eq!(sorted(first), sorted(second));
}

#[test]
fn grouping_and_flat_list_hold_the_same_paths() {
    let mut finder = Finder::new(s("root"), s("txt|md|rs"));
    let index = finder.find(&tree()).unwrap();
    let all = finder.get_all();
    let mut from_groups = Vec::new();
    for ext in index.extensions() {
        for path in index.get(&ext).unwrap() {
            assert_eq!(all.iter().filter(|p| *p == path).count(), 1);
            assert!(path.ends_with(&format!(".{}", ext)));
            from_groups.push(path.clone());
        }
    }
    assert_eq!(sorted(from_groups), sorted(all.clone()));
    let mut extensions: Vec<String> = all.iter().map(|p| p.rsplit('.').next().unwrap().to_string()).collect();
    extensions.sort();
    extensions.dedup();
    assert_eq!(sorted(index.extensions()), extensions);
}

#[test]
fn filter_keeps_paths_whose_name_holds_the_keyword() {
    let items = vec![
        dir("notes", 0),
        file("notes/report.txt", 1),
        file("notes/summary.txt", 1),
        dir("notes/report", 1),
        file("notes/report/plan.txt", 2),
        file("notes/report/old_report.txt", 2),
    ];
    let mut finder = Finder::new(s("notes"), s("txt"));
    finder.find(&items).unwrap();
    assert_eq!(finder.filter("report"), vec![s("notes/report.txt"), s("notes/report/old_report.txt")]);
    assert_eq!(finder.filter("notes"), Vec::<String>::new());
    assert_eq!(finder.filter(".txt").len(), 4);
    assert_eq!(finder.filter(""), finder.get_all());
    assert_eq!(finder.filter("Report"), Vec::<String>::new());
    assert_eq!(finder.get_all().len(), 4);
}

#[test]
fn filter_before_any_search_is_empty() {
    let mut finder = Finder::new(s("notes"), s("txt"));
    assert_eq!(finder.filter(""), Vec::<String>::new());
}

#[test]
fn free_find_gives_the_paths_or_a_message() {
    assert_eq!(
        find(s("root"), s("md"), &tree()),
        Ok(vec![s("root/b.md"), s("root/z.md")])
    );
    assert_eq!(
        find(s("root"), s("exe"), &tree()),
        Err(s("No files founded in the specified dir"))
    );
    assert_eq!(find(s("root"), s("md"), &Vec::new()), Err(s("No files founded in the specified dir")));
}

#[test]
fn find_under_a_root_below_a_hidden_directory_finds_files() {
    let items = vec![
        dir("/home/me/.config/app", 0),
        file("/home/me/.config/app/a.txt", 1),
        dir("/home/me/.config/app/.cache", 1),
        file("/home/me/.config/app/.cache/b.txt", 2),
        file("/home/me/.config/app/.c.txt", 1),
    ];
    let mut finder = Finder::new(s("/home/me/.config/app"), s("txt"));
    finder.find(&items).unwrap();
    assert_eq!(finder.get_all(), vec![s("/home/me/.config/app/a.txt")]);
}

#[test]
fn find_under_the_current_directory_given_as_a_prefix() {
    let items = vec![dir("./src", 0), file("./src/a.txt", 1), file("./src/.b.txt", 1)];
    let mut finder = Finder::new(s("./src"), s("txt"));
    finder.find(&items).unwrap();
    assert_eq!(finder.get_all(), vec![s("./src/a.txt")]);
}

#[test]
fn find_judges_each_entry_by_its_own_path() {
    let items = vec![
        file("r/v/w.txt", 2),
        file("r/.h/x.txt", 2),
        None,
        file("r/u.txt", 1),
        dir("r/.h", 1),
        dir("r", 0),
        dir("r/v", 1),
    ];
    let mut finder = Finder::new(s("r"), s("txt"));
    finder.find(&items).unwrap();
    assert_eq!(finder.get_all(), vec![s("r/v/w.txt"), s("r/u.txt")]);
}

#[test]
fn hidden_names_on_the_way_down_hide_an_entry() {
    let entry = |path: &str, depth: usize| WalkEntry { path: s(path), depth, is_file: true };
    assert!(reached_through_hidden(&entry("root/.git/config", 2)));
    assert!(reached_through_hidden(&entry("root/.git", 1)));
    assert!(reached_through_hidden(&entry("root/a/.b/c/d.txt", 4)));
    assert!(reached_through_hidden(&entry("root/.a.txt", 1)));
    assert!(reached_through_hidden(&entry(".root/.a.txt", 1)));
    assert!(reached_through_hidden(&entry("./.a/b.txt", 2)));
    assert!(!reached_through_hidden(&entry("root/a/b.txt", 2)));
    assert!(!reached_through_hidden(&entry("root", 0)));
    assert!(!reached_through_hidden(&entry("", 0)));
    assert!(!reached_through_hidden(&entry("root/a.b.c", 1)));
}

#[test]
fn the_name_of_the_root_does_not_count() {
    let entry = |path: &str, depth: usize| WalkEntry { path: s(path), depth, is_file: true };
    assert!(!reached_through_hidden(&entry(".", 0)));
    assert!(!reached_through_hidden(&entry("..", 0)));
    assert!(!reached_through_hidden(&entry(".cfg", 0)));
    assert!(!reached_through_hidden(&entry("a/.cfg", 0)));
    assert!(!reached_through_hidden(&entry(".cfg/a.txt", 1)));
    assert!(!reached_through_hidden(&entry("./a.txt", 1)));
    assert!(!reached_through_hidden(&entry("../a.txt", 1)));
    assert!(!reached_through_hidden(&entry(".cfg/a/b.txt", 2)));
}

#[test]
fn hidden_names_above_the_root_do_not_count() {
    let entry = |path: &str, depth: usize| WalkEntry { path: s(path), depth, is_file: true };
    assert!(!reached_through_hidden(&entry("/home/.me/root/a.txt", 1)));
    assert!(!reached_through_hidden(&entry("/home/.me/root", 0)));
    assert!(!reached_through_hidden(&entry("./root/a/b.txt", 2)));
    assert!(!reached_through_hidden(&entry("./root/a/b.txt", 3)));
    assert!(reached_through_hidden(&entry("./root/a/b.txt", 4)));
    assert!(reached_through_hidden(&entry("./root/a/b.txt", 30)));
    assert!(reached_through_hidden(&entry("./root/a/b.txt", usize::MAX)));
}
