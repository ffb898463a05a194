use mole::entry::{Entry, EntryKind};
use mole::order::{arrange, path_le, sort_by_path};

fn file(name: &str, path: &str, len: u64) -> Entry {
    Entry { name: name.to_string(), path: path.as_bytes().to_vec(), kind: EntryKind::File { len } }
}

fn names(entries: &Vec<Entry>) -> Vec<String> {
    entries.iter().map(|e| e.name.clone()).collect()
}

#[test]
fn paths_are_compared_byte_by_byte() {
    let le = |a: &str, b: &str| path_le(&a.as_bytes().to_vec(), &b.as_bytes().to_vec());
    assert!(le("", ""));
    assert!(le("", "a"));
    assert!(!le("a", ""));
    assert!(le("a", "a"));
    assert!(le("a", "b"));
    assert!(!le("b", "a"));
    assert!(le("a", "ab"));
    assert!(!le("ab", "a"));
    assert!(le("Z", "a"));
    assert!(le("a.txt", "a/b"));
    assert!(le("r/10", "r/9"));
    assert!(!path_le(&vec![0xffu8], &vec![0x7fu8]));
    assert!(path_le(&vec![0x7fu8], &vec![0xffu8]));
}

#[test]
fn arrange_sorts_by_path() {
    let listing = vec![
        Some(file("c", "/r/c", 1)),
        Some(file("a", "/r/a", 2)),
        Some(file("b", "/r/b", 3)),
    ];
    let entries = arrange(listing);
    assert_eq!(names(&entries), vec!["a", "b", "c"]);
}

#[test]
fn arrange_orders_by_path_and_not_by_name() {
    let listing = vec![Some(file("a", "/r/2", 0)), Some(file("b", "/r/1", 0))];
    let entries = arrange(listing);
    assert_eq!(names(&entries), vec!["b", "a"]);
}

#[test]
fn arrange_has_no_directories_first_rule() {
    let listing = vec![
        Some(Entry { name: "z".to_string(), path: b"/r/z".to_vec(), kind: EntryKind::Directory }),
        Some(file("m", "/r/m", 0)),
        Some(Entry { name: "a".to_string(), path: b"/r/a".to_vec(), kind: EntryKind::Other }),
    ];
    let entries = arrange(listing);
    assert_eq!(names(&entries), vec!["a", "m", "z"]);
}

#[test]
fn arrange_drops_failed_lookups() {
    let listing = vec![None, Some(file("b", "/r/b", 0)), None, Some(file("a", "/r/a", 0)), None];
    let entries = arrange(listing);
    assert_eq!(names(&entries), vec!["a", "b"]);
}

#[test]
fn arrange_of_nothing_is_nothing() {
    assert!(arrange(vec![]).is_empty());
    assert!(arrange(vec![None, None]).is_empty());
}

#[test]
fn arrange_keeps_the_listing_order_of_equal_paths() {
    let listing = vec![
        Some(file("second", "/r/x", 0)),
        Some(file("first", "/r/a", 0)),
        Some(file("third", "/r/x", 0)),
    ];
    let entries = arrange(listing);
    assert_eq!(names(&entries), vec!["first", "second", "third"]);
}

#[test]
fn arrange_gives_one_order_for_every_listing_order() {
    let items = ["delta", "alpha", "charlie", "bravo"];
    let orders: Vec<Vec<usize>> = vec![vec![0, 1, 2, 3], vec![3, 2, 1, 0], vec![2, 0, 3, 1], vec![1, 3, 0, 2]];
    for order in orders {
        let listing: Vec<Option<Entry>> =
            order.iter().map(|i| Some(file(items[*i], &format!("/r/{}", items[*i]), 0))).collect();
        let entries = arrange(listing);
        assert_eq!(names(&entries), vec!["alpha", "bravo", "charlie", "delta"]);
    }
}

#[test]
fn sort_by_path_agrees_with_a_stable_sort_of_the_paths() {
    let mut seed: u64 = 12345;
    let mut entries: Vec<Entry> = Vec::new();
    for i in 0..1500u64 {
        seed = seed.wrapping_mul(6364136223846793005).wrapping_add(1442695040888963407);
        let key = (seed >> 33) % 400;
        entries.push(file(&format!("n{}", i), &format!("/r/{}", key), i));
    }
    let mut expected = entries.clone();
    expected.sort_by(|a, b| a.path.cmp(&b.path));
    let sorted = sort_by_path(entries);
    assert_eq!(sorted.len(), 1500);
    assert_eq!(names(&sorted), names(&expected));
}

#[test]
fn sort_by_path_of_few_entries() {
    assert!(sort_by_path(vec![]).is_empty());
    let one = sort_by_path(vec![file("a", "/r/a", 0)]);
    assert_eq!(names(&one), vec!["a"]);
    let two = sort_by_path(vec![file("b", "/r/b", 0), file("a", "/r/a", 0)]);
    assert_eq!(names(&two), vec!["a", "b"]);
    let three = sort_by_path(vec![file("c", "/r/c", 0), file("b", "/r/b", 0), file("a", "/r/a", 0)]);
    assert_eq!(names(&three), vec!["a", "b", "c"]);
}

#[test]
fn a_path_sorts_before_those_that_it_begins() {
    let sorted = sort_by_path(vec![
        file("ab", "/r/ab", 0),
        file("a.b", "/r/a.b", 0),
        file("a", "/r/a", 0),
        file("B", "/r/B", 0),
    ]);
    assert_eq!(names(&sorted), vec!["B", "a", "a.b", "ab"]);
}
