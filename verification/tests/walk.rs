use rtree::entry::Entry;
use rtree::walker::Walker;

fn file(parent: &str, name: &str) -> Entry {
    Entry::new(name.to_string(), format!("{}/{}", parent, name), false)
}

fn dir(parent: &str, name: &str) -> Entry {
    Entry::new(name.to_string(), format!("{}/{}", parent, name), true)
}

/// Drives a walk over directories held in memory: each pair is a path and
/// its listing, and a path without a pair cannot be listed. Returns the
/// lines, the paths that were asked for, and whether the walk failed.
fn walk(
    dirs: &[(&str, Vec<Entry>)],
    root: &str,
    depth: usize,
    show_hidden: bool,
) -> (Vec<String>, Vec<String>, bool) {
    let mut walker = Walker::start(root.to_string(), String::new(), depth, show_hidden);
    let mut lines = Vec::new();
    let mut asked = Vec::new();
    loop {
        let path = match walker.next_directory() {
            Some(path) => path.to_string(),
            None => break,
        };
        asked.push(path.clone());
        match dirs.iter().find(|(p, _)| *p == path) {
            Some((_, listing)) => lines.extend(walker.listed(listing)),
            None => walker.listing_failed(),
        }
    }
    assert!(walker.is_finished());
    (lines, asked, walker.has_failed())
}

fn sample() -> Vec<(&'static str, Vec<Entry>)> {
    vec![
        ("/tmp/x", vec![file("/tmp/x", "b.txt"), file("/tmp/x", "a.txt"), dir("/tmp/x", "c")]),
        ("/tmp/x/c", vec![file("/tmp/x/c", "d.txt")]),
    ]
}

#[test]
fn whole_tree_is_printed_in_order() {
    let (lines, asked, failed) = walk(&sample(), "/tmp/x", usize::MAX, false);
    assert_eq!(lines, vec!["├── a.txt", "├── b.txt", "└── c", "      └── d.txt"]);
    assert_eq!(asked, vec!["/tmp/x", "/tmp/x/c"]);
    assert!(!failed);
}

#[test]
fn depth_one_prints_the_first_level_only() {
    let (lines, asked, failed) = walk(&sample(), "/tmp/x", 1, false);
    assert_eq!(lines, vec!["├── a.txt", "├── b.txt", "└── c"]);
    assert_eq!(asked, vec!["/tmp/x"]);
    assert!(!failed);
}

#[test]
fn depth_two_reaches_the_second_level() {
    let (lines, asked, _) = walk(&sample(), "/tmp/x", 2, false);
    assert_eq!(lines, vec!["├── a.txt", "├── b.txt", "└── c", "      └── d.txt"]);
    assert_eq!(asked, vec!["/tmp/x", "/tmp/x/c"]);
}

#[test]
fn depth_zero_prints_nothing_and_lists_nothing() {
    let (lines, asked, failed) = walk(&sample(), "/tmp/x", 0, false);
    assert!(lines.is_empty());
    assert!(asked.is_empty());
    assert!(!failed);
    let walker = Walker::start("/nowhere".to_string(), String::new(), 0, true);
    assert!(walker.is_finished());
    assert!(walker.next_directory().is_none());
    assert!(!walker.has_failed());
}

#[test]
fn depth_zero_does_not_fail_on_an_unreadable_root() {
    let (lines, asked, failed) = walk(&[], "/nowhere", 0, false);
    assert!(lines.is_empty());
    assert!(asked.is_empty());
    assert!(!failed);
}

#[test]
fn hidden_file_is_left_out_and_does_not_count_as_last() {
    let dirs = vec![("/d", vec![file("/d", "z.txt"), file("/d", ".env"), file("/d", "a.txt")])];
    let (lines, _, _) = walk(&dirs, "/d", usize::MAX, false);
    assert_eq!(lines, vec!["├── a.txt", "└── z.txt"]);
}

#[test]
fn hidden_last_entry_leaves_the_corner_to_the_one_before() {
    // Hidden entries are dropped before the order is made, so a hidden
    // name never holds the corner.
    let dirs = vec![("/d", vec![file("/d", "b"), file("/d", ".z"), file("/d", "a")])];
    let (lines, _, _) = walk(&dirs, "/d", usize::MAX, false);
    assert_eq!(lines, vec!["├── a", "└── b"]);
    let (all, _, _) = walk(&dirs, "/d", usize::MAX, true);
    assert_eq!(all, vec!["├── .z", "├── a", "└── b"]);
}

#[test]
fn hidden_entries_are_shown_when_asked_for() {
    let dirs = vec![
        ("/d", vec![file("/d", "a.txt"), dir("/d", ".git"), file("/d", ".env")]),
        ("/d/.git", vec![file("/d/.git", "HEAD")]),
    ];
    let (lines, asked, _) = walk(&dirs, "/d", usize::MAX, true);
    assert_eq!(lines, vec!["├── .env", "├── .git", "|     └── HEAD", "└── a.txt"]);
    assert_eq!(asked, vec!["/d", "/d/.git"]);
}

#[test]
fn hidden_directory_is_not_listed() {
    let dirs = vec![
        ("/d", vec![file("/d", "a.txt"), dir("/d", ".git")]),
        ("/d/.git", vec![file("/d/.git", "HEAD")]),
    ];
    let (lines, asked, failed) = walk(&dirs, "/d", usize::MAX, false);
    assert_eq!(lines, vec!["└── a.txt"]);
    assert_eq!(asked, vec!["/d"]);
    assert!(!failed);
}

#[test]
fn no_printed_name_begins_with_a_dot() {
    let dirs = vec![
        ("/d", vec![file("/d", ".a"), dir("/d", "sub"), file("/d", "."), dir("/d", ".h")]),
        ("/d/sub", vec![file("/d/sub", ".b"), file("/d/sub", "c"), file("/d/sub", "..")]),
        ("/d/.h", vec![file("/d/.h", "x")]),
    ];
    let (lines, _, _) = walk(&dirs, "/d", usize::MAX, false);
    assert_eq!(lines, vec!["└── sub", "      └── c"]);
    for line in &lines {
        let name = line.rsplit("── ").next().unwrap();
        assert!(!name.starts_with('.'));
    }
}

#[test]
fn bar_runs_below_a_directory_that_is_not_last() {
    let dirs = vec![
        ("/r", vec![dir("/r", "a"), dir("/r", "b")]),
        ("/r/a", vec![file("/r/a", "1"), dir("/r/a", "2")]),
        ("/r/a/2", vec![file("/r/a/2", "x")]),
        ("/r/b", vec![file("/r/b", "y")]),
    ];
    let (lines, asked, failed) = walk(&dirs, "/r", usize::MAX, false);
    assert_eq!(
        lines,
        vec![
            "├── a",
            "|     ├── 1",
            "|     └── 2",
            "|           └── x",
            "└── b",
            "      └── y",
        ]
    );
    assert_eq!(asked, vec!["/r", "/r/a", "/r/a/2", "/r/b"]);
    assert!(!failed);
}

#[test]
fn entries_at_the_depth_limit_are_printed_but_not_opened() {
    let dirs = vec![
        ("/r", vec![dir("/r", "a"), dir("/r", "b")]),
        ("/r/a", vec![dir("/r/a", "deep")]),
        ("/r/b", vec![file("/r/b", "y")]),
    ];
    // "/r/a/deep" has no listing: it would fail if it were opened.
    let (lines, asked, failed) = walk(&dirs, "/r", 2, false);
    assert_eq!(lines, vec!["├── a", "|     └── deep", "└── b", "      └── y"]);
    assert_eq!(asked, vec!["/r", "/r/a", "/r/b"]);
    assert!(!failed);
}

#[test]
fn unreadable_subdirectory_ends_the_walk() {
    let dirs = vec![
        ("/r", vec![file("/r", "0"), dir("/r", "a"), dir("/r", "b"), file("/r", "c")]),
        ("/r/b", vec![file("/r/b", "y")]),
    ];
    let (lines, asked, failed) = walk(&dirs, "/r", usize::MAX, false);
    assert_eq!(lines, vec!["├── 0", "├── a"]);
    assert_eq!(asked, vec!["/r", "/r/a"]);
    assert!(failed);
}

#[test]
fn unreadable_root_fails_without_a_line() {
    let (lines, asked, failed) = walk(&[], "/gone", 3, false);
    assert!(lines.is_empty());
    assert_eq!(asked, vec!["/gone"]);
    assert!(failed);
}

#[test]
fn failure_deep_down_keeps_what_was_printed() {
    let dirs = vec![
        ("/r", vec![dir("/r", "a"), file("/r", "z")]),
        ("/r/a", vec![file("/r/a", "1"), dir("/r/a", "2"), file("/r/a", "3")]),
    ];
    let (lines, asked, failed) = walk(&dirs, "/r", usize::MAX, false);
    assert_eq!(lines, vec!["├── a", "|     ├── 1", "|     ├── 2"]);
    assert_eq!(asked, vec!["/r", "/r/a", "/r/a/2"]);
    assert!(failed);
}

#[test]
fn walking_twice_gives_the_same_lines() {
    let first = walk(&sample(), "/tmp/x", usize::MAX, false);
    let second = walk(&sample(), "/tmp/x", usize::MAX, false);
    assert_eq!(first, second);
    let shuffled = vec![
        ("/tmp/x/c", vec![file("/tmp/x/c", "d.txt")]),
        ("/tmp/x", vec![dir("/tmp/x", "c"), file("/tmp/x", "a.txt"), file("/tmp/x", "b.txt")]),
    ];
    assert_eq!(walk(&shuffled, "/tmp/x", usize::MAX, false), first);
}

#[test]
fn empty_directory_prints_nothing() {
    let dirs = vec![("/e", vec![])];
    let (lines, asked, failed) = walk(&dirs, "/e", 5, false);
    assert!(lines.is_empty());
    assert_eq!(asked, vec!["/e"]);
    assert!(!failed);
}

#[test]
fn empty_subdirectories_are_passed_over() {
    let dirs = vec![
        ("/r", vec![dir("/r", "a"), dir("/r", "b"), file("/r", "c")]),
        ("/r/a", vec![]),
        ("/r/b", vec![file("/r/b", ".hidden")]),
    ];
    let (lines, asked, failed) = walk(&dirs, "/r", usize::MAX, false);
    assert_eq!(lines, vec!["├── a", "├── b", "└── c"]);
    assert_eq!(asked, vec!["/r", "/r/a", "/r/b"]);
    assert!(!failed);
}

#[test]
fn only_child_has_the_corner() {
    let dirs = vec![("/r", vec![file("/r", "only")])];
    let (lines, _, _) = walk(&dirs, "/r", 1, false);
    assert_eq!(lines, vec!["└── only"]);
}

#[test]
fn every_sibling_but_the_last_has_the_tee() {
    let names = ["e", "c", "a", "d", "b"];
    let listing: Vec<Entry> = names.iter().map(|n| file("/r", n)).collect();
    let (lines, _, _) = walk(&[("/r", listing)], "/r", 1, false);
    assert_eq!(lines, vec!["├── a", "├── b", "├── c", "├── d", "└── e"]);
    let corners = lines.iter().filter(|l| l.starts_with("└── ")).count();
    assert_eq!(corners, 1);
    assert!(lines.last().unwrap().starts_with("└── "));
}

#[test]
fn given_prefix_stands_in_front_of_every_line() {
    let mut walker = Walker::start("/tmp/x".to_string(), "> ".to_string(), usize::MAX, false);
    let dirs = sample();
    let mut lines = walker.listed(&dirs[0].1);
    assert_eq!(walker.next_directory(), Some("/tmp/x/c"));
    lines.extend(walker.listed(&dirs[1].1));
    assert!(walker.is_finished());
    assert_eq!(lines, vec!["> ├── a.txt", "> ├── b.txt", "> └── c", ">       └── d.txt"]);
}

#[test]
fn lines_come_in_bursts_that_end_at_the_next_directory() {
    let dirs = vec![
        ("/r", vec![file("/r", "0"), dir("/r", "a"), file("/r", "b")]),
        ("/r/a", vec![file("/r/a", "x")]),
    ];
    let mut walker = Walker::start("/r".to_string(), String::new(), usize::MAX, false);
    assert_eq!(walker.next_directory(), Some("/r"));
    assert!(!walker.is_finished());
    let first = walker.listed(&dirs[0].1);
    assert_eq!(first, vec!["├── 0", "├── a"]);
    assert_eq!(walker.next_directory(), Some("/r/a"));
    let second = walker.listed(&dirs[1].1);
    assert_eq!(second, vec!["|     └── x", "└── b"]);
    assert_eq!(walker.next_directory(), None);
    assert!(walker.is_finished());
    assert!(!walker.has_failed());
}

#[test]
fn finished_walk_ignores_further_listings() {
    let mut walker = Walker::start("/r".to_string(), String::new(), 1, false);
    let lines = walker.listed(&[file("/r", "a")]);
    assert_eq!(lines, vec!["└── a"]);
    assert!(walker.is_finished());
    let more = walker.listed(&[file("/r", "b")]);
    assert!(more.is_empty());
    assert!(walker.is_finished());
    assert!(!walker.has_failed());
    walker.listing_failed();
    assert!(!walker.has_failed());
}

#[test]
fn failed_walk_stays_failed_and_silent() {
    let mut walker = Walker::start("/r".to_string(), String::new(), 2, false);
    let lines = walker.listed(&[dir("/r", "a"), file("/r", "b")]);
    assert_eq!(lines, vec!["├── a"]);
    walker.listing_failed();
    assert!(walker.has_failed());
    assert!(walker.is_finished());
    assert_eq!(walker.next_directory(), None);
    assert!(walker.listed(&[file("/r/a", "x")]).is_empty());
    assert!(walker.has_failed());
}

#[test]
fn entry_is_listed_by_its_path_and_printed_by_its_name() {
    let listing = vec![Entry::new("shown".to_string(), "/elsewhere/real".to_string(), true)];
    let mut walker = Walker::start("/r".to_string(), String::new(), 2, false);
    assert_eq!(walker.listed(&listing), vec!["└── shown"]);
    assert_eq!(walker.next_directory(), Some("/elsewhere/real"));
}

#[test]
fn siblings_are_ordered_by_path_not_by_name() {
    let listing = vec![
        Entry::new("a".to_string(), "/r/2".to_string(), false),
        Entry::new("b".to_string(), "/r/1".to_string(), false),
    ];
    let mut walker = Walker::start("/r".to_string(), String::new(), 1, false);
    assert_eq!(walker.listed(&listing), vec!["├── b", "└── a"]);
}

#[test]
fn deep_chain_is_followed_to_the_depth_given() {
    let dirs = vec![
        ("/r", vec![dir("/r", "1")]),
        ("/r/1", vec![dir("/r/1", "2")]),
        ("/r/1/2", vec![dir("/r/1/2", "3")]),
        ("/r/1/2/3", vec![file("/r/1/2/3", "end")]),
    ];
    let (lines, asked, _) = walk(&dirs, "/r", 3, false);
    assert_eq!(lines, vec!["└── 1", "      └── 2", "            └── 3"]);
    assert_eq!(asked, vec!["/r", "/r/1", "/r/1/2"]);
    for (k, expected) in [(1usize, 1usize), (2, 2), (3, 3), (4, 4), (5, 4)] {
        let (lines, _, failed) = walk(&dirs, "/r", k, false);
        assert_eq!(lines.len(), expected);
        assert!(!failed);
    }
}
