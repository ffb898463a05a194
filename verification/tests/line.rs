use mole::entry::{Entry, EntryKind};
use mole::line::{child_prefix, connector_str, entry_line};

#[test]
fn the_last_child_has_the_corner() {
    assert_eq!(connector_str(true), "└── ");
    assert_eq!(connector_str(false), "├── ");
}

#[test]
fn the_prefix_grows_by_four_characters() {
    assert_eq!(child_prefix("", true), "    ");
    assert_eq!(child_prefix("", false), "│   ");
    assert_eq!(child_prefix("│   ", true), "│       ");
    assert_eq!(child_prefix("    ", false), "    │   ");
    assert_eq!(child_prefix("", false).chars().count(), 4);
}

#[test]
fn a_line_is_prefix_connector_and_name() {
    let entry = Entry { name: "notes.txt".to_string(), path: b"/r/notes.txt".to_vec(), kind: EntryKind::File { len: 2048 } };
    assert_eq!(entry_line("", &entry, false, false), "├── notes.txt");
    assert_eq!(entry_line("", &entry, true, false), "└── notes.txt");
    assert_eq!(entry_line("│   ", &entry, true, false), "│   └── notes.txt");
}

#[test]
fn size_mode_adds_the_size_to_files_only() {
    let file = Entry { name: "a.txt".to_string(), path: b"/r/a.txt".to_vec(), kind: EntryKind::File { len: 10 } };
    let dir = Entry { name: "src".to_string(), path: b"/r/src".to_vec(), kind: EntryKind::Directory };
    let other = Entry { name: "sock".to_string(), path: b"/r/sock".to_vec(), kind: EntryKind::Other };
    assert_eq!(entry_line("", &file, true, true), "└── a.txt | 10 B");
    assert_eq!(entry_line("    ", &file, false, true), "    ├── a.txt | 10 B");
    assert_eq!(entry_line("", &dir, false, true), "├── src");
    assert_eq!(entry_line("", &other, true, true), "└── sock");
    let big = Entry { name: "big".to_string(), path: b"/r/big".to_vec(), kind: EntryKind::File { len: 1536 } };
    assert_eq!(entry_line("", &big, true, true), "└── big | 1.50 KB");
}
