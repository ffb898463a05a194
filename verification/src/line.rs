//! The text of one line of the tree.

use vstd::prelude::*;
use crate::entry::{Entry, EntryKind, EntryView};
use crate::size::{format_size, size_text};

verus! {

/// The connector in front of a name: the corner for the last child of a
/// directory, the tee for every other.
pub open spec fn connector(is_last: bool) -> Seq<char> {
    if is_last {
        seq!['└', '─', '─', ' ']
    } else {
        seq!['├', '─', '─', ' ']
    }
}

/// What one level adds to the prefix of the lines below a child: blanks below
/// the last child, a vertical bar below every other.
pub open spec fn continuation(is_last: bool) -> Seq<char> {
    if is_last {
        seq![' ', ' ', ' ', ' ']
    } else {
        seq!['│', ' ', ' ', ' ']
    }
}

/// The prefix of the lines below a child that is shown behind `prefix`.
pub open spec fn child_prefix_text(prefix: Seq<char>, is_last: bool) -> Seq<char> {
    prefix + continuation(is_last)
}

/// What stands between a file's name and its size.
pub open spec fn size_separator() -> Seq<char> {
    seq![' ', '|', ' ']
}

/// The line of one child: prefix, connector and name, and for a file in size
/// mode the separator and the size.
pub open spec fn line_text(prefix: Seq<char>, entry: EntryView, is_last: bool, size_mode: bool) -> Seq<
    char,
> {
    let plain = prefix + connector(is_last) + entry.name;
    match entry.kind {
        EntryKind::File { len } => if size_mode {
            plain + size_separator() + size_text(len as nat)
        } else {
            plain
        },
        _ => plain,
    }
}

/// The connector for a child, by whether it is the last of its directory.
pub fn connector_str(is_last: bool) -> (s: &'static str)
    ensures
        s@ == connector(is_last),
{
    proof {
        reveal_strlit("└── ");
        reveal_strlit("├── ");
    }
    let s: &'static str = if is_last {
        "└── "
    } else {
        "├── "
    };
    assert(s@ =~= connector(is_last));
    s
}

/// The prefix for the lines below a child shown behind `prefix`.
pub fn child_prefix(prefix: &str, is_last: bool) -> (below: String)
    ensures
        below@ == child_prefix_text(prefix@, is_last),
{
    proof {
        reveal_strlit("    ");
        reveal_strlit("│   ");
    }
    let mut below = String::from_str(prefix);
    if is_last {
        below.append("    ");
    } else {
        below.append("│   ");
    }
    assert(below@ =~= child_prefix_text(prefix@, is_last));
    below
}

/// The line of one child.
pub fn entry_line(prefix: &str, entry: &Entry, is_last: bool, size_mode: bool) -> (line: String)
    ensures
        line@ == line_text(prefix@, entry@, is_last, size_mode),
{
    let mut line = String::from_str(prefix);
    line.append(connector_str(is_last));
    line.append(entry.name.as_str());
    match entry.kind {
        EntryKind::File { len } => {
            if size_mode {
                proof {
                    reveal_strlit(" | ");
                }
                line.append(" | ");
                let size = format_size(len);
                line.append(size.as_str());
                assert(line@ =~= line_text(prefix@, entry@, is_last, size_mode));
            }
        },
        _ => {},
    }
    line
}

/// A line begins with the prefix and the connector that it was given.
pub proof fn lemma_line_begins(prefix: Seq<char>, entry: EntryView, is_last: bool, size_mode: bool)
    ensures
        (prefix + connector(is_last)).is_prefix_of(line_text(prefix, entry, is_last, size_mode)),
        line_text(prefix, entry, is_last, size_mode).len() >= prefix.len() + 4,
{
}

} // verus!
