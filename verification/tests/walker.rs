use std::collections::HashMap;

use mole::entry::{Entry, EntryKind};
use mole::sink::{fenced, Sink};
use mole::walker::{Step, TraversalError, Walker};

type Hierarchy = HashMap<Vec<u8>, Vec<Option<Entry>>>;

fn file(dir: &str, name: &str, len: u64) -> Option<Entry> {
    Some(Entry {
        name: name.to_string(),
        path: format!("{}/{}", dir, name).into_bytes(),
        kind: EntryKind::File { len },
    })
}

fn dir(parent: &str, name: &str) -> Option<Entry> {
    Some(Entry {
        name: name.to_string(),
        path: format!("{}/{}", parent, name).into_bytes(),
        kind: EntryKind::Directory,
    })
}

fn other(parent: &str, name: &str) -> Option<Entry> {
    Some(Entry {
        name: name.to_string(),
        path: format!("{}/{}", parent, name).into_bytes(),
        kind: EntryKind::Other,
    })
}

/// Drives a walker over `fs` to its end: the lines, and the directory on
/// which it failed.
fn walk(fs: &Hierarchy, root: &str, size_mode: bool) -> (Vec<String>, Option<String>) {
    let mut walker = Walker::new(root.as_bytes().to_vec(), String::new(), size_mode);
    let mut lines: Vec<String> = Vec::new();
    let mut steps = 0;
    loop {
        steps += 1;
        assert!(steps < 10000);
        match walker.next() {
            Step::List(path) => walker.supply(fs.get(&path).cloned()),
            Step::Emit(line) => lines.push(line),
            Step::Done => return (lines, None),
            Step::Failed(TraversalError::Unreadable(path)) => {
                return (lines, Some(String::from_utf8(path).unwrap()));
            }
        }
    }
}

fn sample() -> Hierarchy {
    let mut fs = Hierarchy::new();
    fs.insert(
        b"/r".to_vec(),
        vec![file("/r", "zeta.txt", 1024), dir("/r", "src"), file("/r", "alpha.txt", 10), dir("/r", "docs")],
    );
    fs.insert(b"/r/src".to_vec(), vec![file("/r/src", "main.rs", 2048), dir("/r/src", "bin")]);
    fs.insert(b"/r/src/bin".to_vec(), vec![file("/r/src/bin", "tool.rs", 1)]);
    fs.insert(b"/r/docs".to_vec(), vec![file("/r/docs", "guide.md", 1536)]);
    fs
}

#[test]
fn an_empty_directory_shows_nothing() {
    let mut fs = Hierarchy::new();
    fs.insert(b"/r".to_vec(), vec![]);
    let (lines, failure) = walk(&fs, "/r", false);
    assert!(lines.is_empty());
    assert_eq!(failure, None);
    let (lines, failure) = walk(&fs, "/r", true);
    assert!(lines.is_empty());
    assert_eq!(failure, None);
}

#[test]
fn an_empty_directory_takes_two_steps() {
    let mut walker = Walker::new(b"/r".to_vec(), String::new(), false);
    assert!(matches!(walker.next(), Step::List(path) if path == b"/r".to_vec()));
    walker.supply(Some(vec![]));
    assert!(matches!(walker.next(), Step::Done));
    assert!(matches!(walker.next(), Step::Done));
}

#[test]
fn a_walker_asks_again_until_it_is_answered() {
    let mut walker = Walker::new(b"/r".to_vec(), String::new(), false);
    assert!(matches!(walker.next(), Step::List(path) if path == b"/r".to_vec()));
    assert!(matches!(walker.next(), Step::List(path) if path == b"/r".to_vec()));
    walker.supply(Some(vec![file("/r", "a", 0)]));
    assert!(matches!(walker.next(), Step::Emit(line) if line == "└── a"));
    assert!(matches!(walker.next(), Step::Done));
}

#[test]
fn a_listing_that_was_not_asked_for_is_ignored() {
    let mut walker = Walker::new(b"/r".to_vec(), String::new(), false);
    walker.supply(Some(vec![file("/r", "a", 0)]));
    walker.supply(Some(vec![file("/r", "b", 0)]));
    walker.supply(None);
    assert!(matches!(walker.next(), Step::Emit(line) if line == "└── a"));
    assert!(matches!(walker.next(), Step::Done));
}

#[test]
fn one_file_with_its_size() {
    let mut fs = Hierarchy::new();
    fs.insert(b"/r".to_vec(), vec![file("/r", "a.txt", 10)]);
    let (lines, failure) = walk(&fs, "/r", true);
    assert_eq!(lines, vec!["└── a.txt | 10 B"]);
    assert_eq!(failure, None);
}

#[test]
fn one_file_saved_with_its_size() {
    let mut fs = Hierarchy::new();
    fs.insert(b"/r".to_vec(), vec![file("/r", "a.txt", 10)]);
    let (lines, failure) = walk(&fs, "/r", true);
    assert_eq!(failure, None);
    let mut sink = Sink::buffered();
    for line in lines.iter() {
        assert_eq!(sink.emit(line), None);
    }
    let buffer = sink.finalize().unwrap();
    assert_eq!(buffer, "└── a.txt | 10 B\n");
    assert_eq!(fenced(&buffer), "```text\n└── a.txt | 10 B\n\n```");
}

#[test]
fn a_tree_without_sizes() {
    let (lines, failure) = walk(&sample(), "/r", false);
    assert_eq!(
        lines,
        vec![
            "├── alpha.txt",
            "├── docs",
            "│   └── guide.md",
            "├── src",
            "│   ├── bin",
            "│   │   └── tool.rs",
            "│   └── main.rs",
            "└── zeta.txt",
        ]
    );
    assert_eq!(failure, None);
}

#[test]
fn a_tree_with_sizes() {
    let (lines, failure) = walk(&sample(), "/r", true);
    assert_eq!(
        lines,
        vec![
            "├── alpha.txt | 10 B",
            "├── docs",
            "│   └── guide.md | 1.50 KB",
            "├── src",
            "│   ├── bin",
            "│   │   └── tool.rs | 1 B",
            "│   └── main.rs | 2.00 KB",
            "└── zeta.txt | 1.00 KB",
        ]
    );
    assert_eq!(failure, None);
}

#[test]
fn below_the_last_child_the_prefix_is_blank() {
    let mut fs = Hierarchy::new();
    fs.insert(b"/r".to_vec(), vec![dir("/r", "a"), dir("/r", "b")]);
    fs.insert(b"/r/a".to_vec(), vec![file("/r/a", "x", 0), file("/r/a", "y", 0)]);
    fs.insert(b"/r/b".to_vec(), vec![dir("/r/b", "c")]);
    fs.insert(b"/r/b/c".to_vec(), vec![file("/r/b/c", "z", 0)]);
    let (lines, failure) = walk(&fs, "/r", false);
    assert_eq!(
        lines,
        vec!["├── a", "│   ├── x", "│   └── y", "└── b", "    └── c", "        └── z"]
    );
    assert_eq!(failure, None);
}

#[test]
fn each_directory_has_one_last_child() {
    let mut fs = Hierarchy::new();
    let mut listing = Vec::new();
    for i in 0..9 {
        listing.push(file("/r", &format!("f{}", i), i));
    }
    fs.insert(b"/r".to_vec(), listing);
    let (lines, failure) = walk(&fs, "/r", false);
    assert_eq!(failure, None);
    assert_eq!(lines.len(), 9);
    assert_eq!(lines.iter().filter(|l| l.starts_with("└── ")).count(), 1);
    assert_eq!(lines.iter().filter(|l| l.starts_with("├── ")).count(), 8);
    assert_eq!(lines[8], "└── f8");
}

#[test]
fn the_same_hierarchy_gives_the_same_lines() {
    let first = walk(&sample(), "/r", true);
    let second = walk(&sample(), "/r", true);
    assert_eq!(first, second);
}

#[test]
fn the_order_of_a_listing_does_not_show() {
    let mut shuffled = sample();
    for listing in shuffled.values_mut() {
        listing.reverse();
    }
    assert_eq!(walk(&sample(), "/r", true), walk(&shuffled, "/r", true));
    assert_eq!(walk(&sample(), "/r", false), walk(&shuffled, "/r", false));
}

#[test]
fn a_child_whose_lookup_failed_is_left_out() {
    let mut fs = Hierarchy::new();
    fs.insert(b"/r".to_vec(), vec![file("/r", "c", 3), None, file("/r", "a", 1), None]);
    let (lines, failure) = walk(&fs, "/r", true);
    assert_eq!(lines, vec!["├── a | 1 B", "└── c | 3 B"]);
    assert_eq!(failure, None);
}

#[test]
fn a_failed_lookup_of_the_last_child_moves_the_corner() {
    let mut fs = Hierarchy::new();
    fs.insert(b"/r".to_vec(), vec![file("/r", "a", 1), file("/r", "b", 2), None]);
    let (lines, _) = walk(&fs, "/r", false);
    assert_eq!(lines, vec!["├── a", "└── b"]);
}

#[test]
fn other_kinds_are_shown_and_not_opened() {
    let mut fs = Hierarchy::new();
    fs.insert(b"/r".to_vec(), vec![other("/r", "link"), file("/r", "a", 5)]);
    fs.insert(b"/r/link".to_vec(), vec![file("/r/link", "hidden", 0)]);
    let (lines, failure) = walk(&fs, "/r", true);
    assert_eq!(lines, vec!["├── a | 5 B", "└── link"]);
    assert_eq!(failure, None);
}

#[test]
fn a_root_that_cannot_be_listed_fails() {
    let fs = Hierarchy::new();
    let (lines, failure) = walk(&fs, "/missing", false);
    assert!(lines.is_empty());
    assert_eq!(failure, Some("/missing".to_string()));
}

#[test]
fn a_directory_that_cannot_be_listed_ends_the_walk() {
    let mut fs = sample();
    fs.remove(&b"/r/src/bin".to_vec());
    let (lines, failure) = walk(&fs, "/r", false);
    assert_eq!(lines, vec!["├── alpha.txt", "├── docs", "│   └── guide.md", "├── src", "│   ├── bin"]);
    assert_eq!(failure, Some("/r/src/bin".to_string()));
}

#[test]
fn a_failed_walker_stays_failed() {
    let mut walker = Walker::new(b"/r".to_vec(), String::new(), false);
    assert!(matches!(walker.next(), Step::List(_)));
    walker.supply(None);
    assert!(matches!(walker.next(), Step::Failed(TraversalError::Unreadable(path)) if path == b"/r".to_vec()));
    walker.supply(Some(vec![]));
    assert!(matches!(walker.next(), Step::Failed(TraversalError::Unreadable(path)) if path == b"/r".to_vec()));
}

#[test]
fn a_deep_hierarchy_is_walked_without_recursion() {
    let mut fs = Hierarchy::new();
    let mut path = String::from("/r");
    for _ in 0..2000 {
        fs.insert(path.clone().into_bytes(), vec![dir(&path, "d")]);
        path = format!("{}/d", path);
    }
    fs.insert(path.into_bytes(), vec![]);
    let mut walker = Walker::new(b"/r".to_vec(), String::new(), false);
    let mut lines = 0;
    let mut longest = 0;
    loop {
        match walker.next() {
            Step::List(path) => walker.supply(fs.get(&path).cloned()),
            Step::Emit(line) => {
                lines += 1;
                longest = line.chars().count();
            }
            Step::Done => break,
            Step::Failed(_) => panic!("no directory is missing"),
        }
    }
    assert_eq!(lines, 2000);
    assert_eq!(longest, 4 * 1999 + 4 + 1);
}

#[test]
fn a_walk_can_begin_behind_a_prefix() {
    let mut fs = Hierarchy::new();
    fs.insert(b"/r".to_vec(), vec![dir("/r", "a"), file("/r", "b", 0)]);
    fs.insert(b"/r/a".to_vec(), vec![file("/r/a", "x", 0)]);
    let mut walker = Walker::new(b"/r".to_vec(), "│   ".to_string(), false);
    let mut lines: Vec<String> = Vec::new();
    loop {
        match walker.next() {
            Step::List(path) => walker.supply(fs.get(&path).cloned()),
            Step::Emit(line) => lines.push(line),
            Step::Done => break,
            Step::Failed(_) => panic!("no directory is missing"),
        }
    }
    assert_eq!(lines, vec!["│   ├── a", "│   │   └── x", "│   └── b"]);
}
