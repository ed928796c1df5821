use rtree::arrange::{arrange, sort_by_path};
use rtree::entry::{visible_entries, Entry};
use rtree::order::{bytes_before, path_before};
use rtree::text::{connector_for, extend_prefix, format_line, indent_for};

fn entry(name: &str, path: &str) -> Entry {
    Entry::new(name.to_string(), path.to_string(), false)
}

fn paths(entries: &[Entry]) -> Vec<&str> {
    entries.iter().map(|e| e.path.as_str()).collect()
}

fn names(entries: &[Entry]) -> Vec<&str> {
    entries.iter().map(|e| e.name.as_str()).collect()
}

#[test]
fn new_entry_holds_what_it_was_given() {
    let e = Entry::new("n".to_string(), "/p/n".to_string(), true);
    assert_eq!(e.name, "n");
    assert_eq!(e.path, "/p/n");
    assert!(e.is_dir);
    let copy = e.clone();
    assert_eq!(copy.name, "n");
    assert_eq!(copy.path, "/p/n");
    assert!(copy.is_dir);
}

#[test]
fn name_is_hidden_when_it_begins_with_a_dot() {
    assert!(entry(".env", "/d/.env").is_hidden());
    assert!(entry(".", "/d/.").is_hidden());
    assert!(entry("..", "/d/..").is_hidden());
    assert!(!entry("a.b", "/d/a.b").is_hidden());
    assert!(!entry("", "/d/").is_hidden());
    assert!(!entry("env.", "/d/env.").is_hidden());
    assert!(!entry("é.txt", "/d/é.txt").is_hidden());
    // Only the name counts, not the path.
    assert!(!entry("plain", "/.hidden/plain").is_hidden());
    assert!(entry(".x", "/plain/x").is_hidden());
}

#[test]
fn visible_entries_keeps_the_order_of_the_listing() {
    let listing = vec![entry("c", "/c"), entry(".b", "/.b"), entry("a", "/a"), entry(".d", "/.d")];
    assert_eq!(names(&visible_entries(&listing, false)), vec!["c", "a"]);
    assert_eq!(names(&visible_entries(&listing, true)), vec!["c", ".b", "a", ".d"]);
    assert!(visible_entries(&[], false).is_empty());
    assert!(visible_entries(&[entry(".only", "/.only")], false).is_empty());
}

#[test]
fn bytes_are_compared_lexicographically() {
    assert!(bytes_before(b"a", b"b"));
    assert!(!bytes_before(b"b", b"a"));
    assert!(bytes_before(b"a", b"ab"));
    assert!(!bytes_before(b"ab", b"a"));
    assert!(!bytes_before(b"ab", b"ab"));
    assert!(bytes_before(b"", b"a"));
    assert!(!bytes_before(b"a", b""));
    assert!(!bytes_before(b"", b""));
    assert!(bytes_before(b"ab", b"b"));
    assert!(bytes_before(b"abc", b"abd"));
    assert!(bytes_before(&[0x7f], &[0x80]));
    assert!(bytes_before(&[1, 255], &[2, 0]));
}

#[test]
fn paths_are_compared_by_bytes() {
    assert!(path_before("/r/B", "/r/a"));
    assert!(path_before("/r/a", "/r/a.txt"));
    assert!(path_before("/r/a-b", "/r/a/b"));
    assert!(path_before("/r/10", "/r/9"));
    assert!(path_before("/r/z", "/r/é"));
    assert!(!path_before("/r/é", "/r/z"));
    assert!(!path_before("/r/a", "/r/a"));
    assert!(path_before("/r/é", "/r/日"));
}

#[test]
fn sort_orders_by_path_bytes() {
    let listing = vec![
        entry("b", "/r/b"),
        entry("B", "/r/B"),
        entry("é", "/r/é"),
        entry("a", "/r/a"),
        entry("10", "/r/10"),
        entry("9", "/r/9"),
        entry("ab", "/r/ab"),
    ];
    let sorted = sort_by_path(listing);
    assert_eq!(paths(&sorted), vec!["/r/10", "/r/9", "/r/B", "/r/a", "/r/ab", "/r/b", "/r/é"]);
    for pair in sorted.windows(2) {
        assert!(path_before(&pair[0].path, &pair[1].path));
    }
}

#[test]
fn sort_keeps_every_entry() {
    let listing: Vec<Entry> =
        (0..50).map(|i| entry(&format!("n{}", (i * 37) % 50), &format!("/r/{:02}", (i * 37) % 50))).collect();
    let sorted = sort_by_path(listing);
    assert_eq!(sorted.len(), 50);
    for (i, e) in sorted.iter().enumerate() {
        assert_eq!(e.path, format!("/r/{:02}", i));
        assert_eq!(e.name, format!("n{}", i));
    }
}

#[test]
fn sort_keeps_the_order_of_equal_paths() {
    let listing = vec![
        entry("second", "/r/b"),
        entry("x", "/r/a"),
        entry("third", "/r/b"),
        entry("y", "/r/c"),
        entry("fourth", "/r/b"),
    ];
    let sorted = sort_by_path(listing);
    assert_eq!(names(&sorted), vec!["x", "second", "third", "fourth", "y"]);
}

#[test]
fn sort_of_nothing_and_of_one() {
    assert!(sort_by_path(Vec::new()).is_empty());
    assert_eq!(paths(&sort_by_path(vec![entry("a", "/a")])), vec!["/a"]);
}

#[test]
fn arrange_filters_before_it_orders() {
    let listing = vec![entry("z", "/r/z"), entry(".a", "/r/.a"), entry("m", "/r/m"), entry(".zz", "/r/.zz")];
    assert_eq!(names(&arrange(&listing, false)), vec!["m", "z"]);
    assert_eq!(names(&arrange(&listing, true)), vec![".a", ".zz", "m", "z"]);
}

#[test]
fn connectors_are_four_characters_wide() {
    assert_eq!(connector_for(true), "└── ");
    assert_eq!(connector_for(false), "├── ");
    assert_eq!(connector_for(true).chars().count(), 4);
    assert_eq!(connector_for(false).chars().count(), 4);
}

#[test]
fn indentation_is_six_characters_wide() {
    assert_eq!(indent_for(true), "      ");
    assert_eq!(indent_for(false), "|     ");
    assert_eq!(extend_prefix("", true), "      ");
    assert_eq!(extend_prefix("", false), "|     ");
    assert_eq!(extend_prefix("|     ", true), "|           ");
    assert_eq!(extend_prefix("      ", false), "      |     ");
}

#[test]
fn line_is_prefix_connector_name() {
    assert_eq!(format_line("", false, "a.txt"), "├── a.txt");
    assert_eq!(format_line("", true, "c"), "└── c");
    assert_eq!(format_line("      ", true, "d.txt"), "      └── d.txt");
    assert_eq!(format_line("|     ", false, "é"), "|     ├── é");
    assert_eq!(format_line("", true, ""), "└── ");
}
