//! What the tree of a hierarchy is: the lines, in order, and where the walk
//! ends if a directory cannot be listed.

use vstd::prelude::*;
use crate::entry::{EntryKind, EntryView};
use crate::line::{child_prefix_text, connector, continuation, line_text};
use crate::line::lemma_line_begins;
use crate::order::{arranged, distinct_paths, kept, lemma_arranged_ignores_listing_order};

verus! {

/// A hierarchy at one moment: for each directory, by its path, what listing
/// it gives. A path that is no key cannot be listed.
pub type Snapshot = Map<Seq<u8>, Seq<Option<EntryView>>>;

/// What a walk shows: its lines, and the directory that it could not list, if
/// it ended on one.
pub struct Rendering {
    pub lines: Seq<Seq<char>>,
    pub failure: Option<Seq<u8>>,
}

impl Rendering {
    /// Nothing shown, and nothing wrong.
    pub open spec fn nothing() -> Rendering {
        Rendering { lines: Seq::empty(), failure: None }
    }

    /// One line.
    pub open spec fn line(text: Seq<char>) -> Rendering {
        Rendering { lines: seq![text], failure: None }
    }

    /// Nothing shown, because `path` cannot be listed.
    pub open spec fn unreadable(path: Seq<u8>) -> Rendering {
        Rendering { lines: Seq::empty(), failure: Some(path) }
    }

    /// This, and `next` behind it, unless this ended on a failure.
    pub open spec fn followed_by(self, next: Rendering) -> Rendering {
        if self.failure is Some {
            self
        } else {
            Rendering { lines: self.lines + next.lines, failure: next.failure }
        }
    }
}

/// The tree of the directory `path`, each line behind `prefix`, no more than
/// `depth` levels below it: a directory further down is shown and not opened.
pub open spec fn render_dir(
    fs: Snapshot,
    path: Seq<u8>,
    prefix: Seq<char>,
    size_mode: bool,
    depth: nat,
) -> Rendering
    decreases depth, 1nat, 0nat,
{
    if fs.contains_key(path) {
        render_entries(fs, arranged(fs[path]), prefix, size_mode, depth)
    } else {
        Rendering::unreadable(path)
    }
}

/// The lines of the children `rest`, the last of which is the last of its
/// directory, and of all that lies below them: each child's own line, then
/// the tree of that child where it is a directory, then the children behind
/// it. The first directory that cannot be listed ends it.
pub open spec fn render_entries(
    fs: Snapshot,
    rest: Seq<EntryView>,
    prefix: Seq<char>,
    size_mode: bool,
    depth: nat,
) -> Rendering
    decreases depth, 0nat, rest.len(),
{
    if rest.len() == 0 {
        Rendering::nothing()
    } else {
        let entry = rest.first();
        let is_last = rest.len() == 1;
        let own = Rendering::line(line_text(prefix, entry, is_last, size_mode));
        let below = if entry.kind == EntryKind::Directory && depth > 0 {
            render_dir(
                fs,
                entry.path,
                child_prefix_text(prefix, is_last),
                size_mode,
                (depth - 1) as nat,
            )
        } else {
            Rendering::nothing()
        };
        own.followed_by(below).followed_by(render_entries(fs, rest.drop_first(), prefix, size_mode, depth))
    }
}

/// Whether no directory lies more than `depth` levels below `path`.
pub open spec fn within_depth(fs: Snapshot, path: Seq<u8>, depth: nat) -> bool
    decreases depth, 1nat, 0nat,
{
    fs.contains_key(path) ==> entries_within(fs, arranged(fs[path]), depth)
}

/// Whether no directory lies more than `depth` levels below the directory
/// that holds the children `rest`.
pub open spec fn entries_within(fs: Snapshot, rest: Seq<EntryView>, depth: nat) -> bool
    decreases depth, 0nat, rest.len(),
{
    rest.len() > 0 ==> {
        &&& rest.first().kind == EntryKind::Directory ==> depth > 0 && within_depth(
            fs,
            rest.first().path,
            (depth - 1) as nat,
        )
        &&& entries_within(fs, rest.drop_first(), depth)
    }
}

/// Whether `line` is the line of a child shown behind `prefix`, with the
/// connector for the last child or with the other.
pub open spec fn is_child_line(prefix: Seq<char>, is_last: bool) -> spec_fn(Seq<char>) -> bool {
    |line: Seq<char>| (prefix + connector(is_last)).is_prefix_of(line)
}

/// A directory without children shows nothing, and that is no failure.
pub proof fn lemma_empty_directory_shows_nothing(
    fs: Snapshot,
    path: Seq<u8>,
    prefix: Seq<char>,
    size_mode: bool,
    depth: nat,
)
    requires
        fs.contains_key(path),
        fs[path].len() == 0,
    ensures
        render_dir(fs, path, prefix, size_mode, depth) == Rendering::nothing(),
{
}

/// Every line of a directory's tree begins with the prefix that the
/// directory was given.
pub proof fn lemma_dir_lines_begin_with_prefix(
    fs: Snapshot,
    path: Seq<u8>,
    prefix: Seq<char>,
    size_mode: bool,
    depth: nat,
)
    ensures
        forall|i: int|
            0 <= i < render_dir(fs, path, prefix, size_mode, depth).lines.len()
                ==> prefix.is_prefix_of(
                #[trigger] render_dir(fs, path, prefix, size_mode, depth).lines[i],
            ),
    decreases depth, 1nat, 0nat,
{
    if fs.contains_key(path) {
        lemma_entries_lines_begin_with_prefix(fs, arranged(fs[path]), prefix, size_mode, depth);
    }
}

/// Every line of the children of a directory, and of all below them, begins
/// with the prefix that the directory was given.
pub proof fn lemma_entries_lines_begin_with_prefix(
    fs: Snapshot,
    rest: Seq<EntryView>,
    prefix: Seq<char>,
    size_mode: bool,
    depth: nat,
)
    ensures
        forall|i: int|
            0 <= i < render_entries(fs, rest, prefix, size_mode, depth).lines.len()
                ==> prefix.is_prefix_of(
                #[trigger] render_entries(fs, rest, prefix, size_mode, depth).lines[i],
            ),
    decreases depth, 0nat, rest.len(),
{
    if rest.len() > 0 {
        let entry = rest.first();
        let is_last = rest.len() == 1;
        let own = line_text(prefix, entry, is_last, size_mode);
        let deeper = child_prefix_text(prefix, is_last);
        let below = if entry.kind == EntryKind::Directory && depth > 0 {
            render_dir(fs, entry.path, deeper, size_mode, (depth - 1) as nat)
        } else {
            Rendering::nothing()
        };
        let tail = render_entries(fs, rest.drop_first(), prefix, size_mode, depth);
        let all = render_entries(fs, rest, prefix, size_mode, depth);
        lemma_line_begins(prefix, entry, is_last, size_mode);
        if entry.kind == EntryKind::Directory && depth > 0 {
            lemma_dir_lines_begin_with_prefix(
                fs,
                entry.path,
                deeper,
                size_mode,
                (depth - 1) as nat,
            );
        }
        lemma_entries_lines_begin_with_prefix(fs, rest.drop_first(), prefix, size_mode, depth);
        assert forall|i: int| 0 <= i < all.lines.len() implies prefix.is_prefix_of(
            #[trigger] all.lines[i],
        ) by {
            if i == 0 {
                assert(all.lines[i] == own);
                lemma_begins_with_front(prefix, connector(is_last), own);
            } else if i < 1 + below.lines.len() {
                assert(all.lines[i] == below.lines[i - 1]);
                lemma_begins_with_front(prefix, continuation(is_last), below.lines[i - 1]);
            } else {
                assert(all.lines[i] == tail.lines[i - 1 - below.lines.len()]);
            }
        }
    }
}

/// What begins with two texts in a row begins with the first.
proof fn lemma_begins_with_front(front: Seq<char>, back: Seq<char>, line: Seq<char>)
    requires
        (front + back).is_prefix_of(line),
    ensures
        front.is_prefix_of(line),
        forall|k: int| 0 <= k < back.len() ==> line[front.len() + k] == back[k],
{
    let both = front + back;
    let cut = line.subrange(0, both.len() as int);
    assert forall|k: int| 0 <= k < front.len() implies front[k] == line[k] by {
        assert(both[k] == cut[k]);
    }
    assert(front =~= line.subrange(0, front.len() as int));
    assert forall|k: int| 0 <= k < back.len() implies line[front.len() + k] == back[k] by {
        assert(both[front.len() + k] == cut[front.len() + k]);
    }
}

/// Below a child the lines carry what the child adds to the prefix: a bar
/// and three blanks below a child that is not the last of its directory,
/// four blanks below the last. These lines follow the child's own line.
pub proof fn lemma_lines_below_child_carry_continuation(
    fs: Snapshot,
    rest: Seq<EntryView>,
    prefix: Seq<char>,
    size_mode: bool,
    depth: nat,
)
    requires
        rest.len() > 0,
        rest.first().kind == EntryKind::Directory,
        depth > 0,
    ensures
        ({
            let is_last = rest.len() == 1;
            let all = render_entries(fs, rest, prefix, size_mode, depth);
            let below = render_dir(
                fs,
                rest.first().path,
                child_prefix_text(prefix, is_last),
                size_mode,
                (depth - 1) as nat,
            );
            &&& all.lines.len() >= 1 + below.lines.len()
            &&& all.lines[0] == line_text(prefix, rest.first(), is_last, size_mode)
            &&& forall|i: int|
                0 <= i < below.lines.len() ==> all.lines[1 + i] == #[trigger] below.lines[i] && (
                prefix + continuation(is_last)).is_prefix_of(below.lines[i])
        }),
{
    let is_last = rest.len() == 1;
    lemma_dir_lines_begin_with_prefix(
        fs,
        rest.first().path,
        child_prefix_text(prefix, is_last),
        size_mode,
        (depth - 1) as nat,
    );
}

/// Filtering a single line keeps it or leaves nothing.
proof fn lemma_filter_one(line: Seq<char>, pred: spec_fn(Seq<char>) -> bool)
    ensures
        seq![line].filter(pred) == if pred(line) {
            seq![line]
        } else {
            Seq::empty()
        },
{
    reveal_with_fuel(Seq::filter, 2);
    assert(seq![line].drop_last() =~= Seq::<Seq<char>>::empty());
    assert(Seq::<Seq<char>>::empty().push(line) =~= seq![line]);
}

/// Among the lines that a directory shows for its children exactly one has
/// the connector of the last child, the line of the child whose path comes
/// last, and every other has the connector of a child that is not the last.
/// The lines of what lies below the children have neither behind the prefix
/// of the directory. This holds of a walk that does not end on a failure.
pub proof fn lemma_one_last_connector(
    fs: Snapshot,
    rest: Seq<EntryView>,
    prefix: Seq<char>,
    size_mode: bool,
    depth: nat,
)
    requires
        render_entries(fs, rest, prefix, size_mode, depth).failure is None,
    ensures
        render_entries(fs, rest, prefix, size_mode, depth).lines.filter(
            is_child_line(prefix, true),
        ) == if rest.len() > 0 {
            seq![line_text(prefix, rest.last(), true, size_mode)]
        } else {
            Seq::empty()
        },
        render_entries(fs, rest, prefix, size_mode, depth).lines.filter(
            is_child_line(prefix, false),
        ).len() == if rest.len() > 0 {
            (rest.len() - 1) as nat
        } else {
            0nat
        },
    decreases rest.len(),
{
    let corner = is_child_line(prefix, true);
    let tee = is_child_line(prefix, false);
    let all = render_entries(fs, rest, prefix, size_mode, depth);
    if rest.len() == 0 {
        reveal_with_fuel(Seq::filter, 1);
    } else {
        let entry = rest.first();
        let is_last = rest.len() == 1;
        let own = line_text(prefix, entry, is_last, size_mode);
        let deeper = child_prefix_text(prefix, is_last);
        let below = if entry.kind == EntryKind::Directory && depth > 0 {
            render_dir(fs, entry.path, deeper, size_mode, (depth - 1) as nat)
        } else {
            Rendering::nothing()
        };
        let tail = render_entries(fs, rest.drop_first(), prefix, size_mode, depth);
        assert(all.lines == seq![own] + below.lines + tail.lines);
        lemma_one_last_connector(fs, rest.drop_first(), prefix, size_mode, depth);
        // the child's own line has its connector and not the other
        lemma_line_begins(prefix, entry, is_last, size_mode);
        lemma_begins_with_front(prefix, connector(is_last), own);
        assert(own[prefix.len() + 0int] == connector(is_last)[0]);
        assert(!is_child_line(prefix, !is_last)(own)) by {
            if (prefix + connector(!is_last)).is_prefix_of(own) {
                lemma_begins_with_front(prefix, connector(!is_last), own);
                assert(own[prefix.len() + 0int] == connector(!is_last)[0]);
            }
        }
        lemma_filter_one(own, corner);
        lemma_filter_one(own, tee);
        // the lines below the child have neither
        if entry.kind == EntryKind::Directory && depth > 0 {
            lemma_dir_lines_begin_with_prefix(
                fs,
                entry.path,
                deeper,
                size_mode,
                (depth - 1) as nat,
            );
        }
        assert forall|i: int| 0 <= i < below.lines.len() implies !corner(
            #[trigger] below.lines[i],
        ) && !tee(below.lines[i]) by {
            let line = below.lines[i];
            lemma_begins_with_front(prefix, continuation(is_last), line);
            assert(line[prefix.len() + 0int] == continuation(is_last)[0]);
            if (prefix + connector(true)).is_prefix_of(line) {
                lemma_begins_with_front(prefix, connector(true), line);
                assert(line[prefix.len() + 0int] == connector(true)[0]);
            }
            if (prefix + connector(false)).is_prefix_of(line) {
                lemma_begins_with_front(prefix, connector(false), line);
                assert(line[prefix.len() + 0int] == connector(false)[0]);
            }
        }
        below.lines.lemma_all_neg_filter_empty(corner);
        below.lines.lemma_all_neg_filter_empty(tee);
        Seq::filter_distributes_over_add(seq![own], below.lines, corner);
        Seq::filter_distributes_over_add(seq![own] + below.lines, tail.lines, corner);
        Seq::filter_distributes_over_add(seq![own], below.lines, tee);
        Seq::filter_distributes_over_add(seq![own] + below.lines, tail.lines, tee);
        assert(below.lines.filter(corner) =~= Seq::<Seq<char>>::empty());
        if is_last {
            assert(rest.drop_first().len() == 0);
            assert(tail.lines.filter(corner) =~= Seq::<Seq<char>>::empty());
            assert(all.lines.filter(corner) =~= seq![own]);
        } else {
            assert(rest.drop_first().last() == rest.last());
            assert(all.lines.filter(corner) =~= tail.lines.filter(corner));
        }
    }
}

/// The order in which the directories hand out their children does not show
/// in the tree: of two hierarchies that have the same directories, each with
/// the same items in its listing, whatever their order, and no two children
/// of one directory under one path, the trees are the same.
pub proof fn lemma_tree_ignores_listing_order(
    fs: Snapshot,
    other: Snapshot,
    path: Seq<u8>,
    prefix: Seq<char>,
    size_mode: bool,
    depth: nat,
)
    requires
        forall|p: Seq<u8>| fs.contains_key(p) <==> other.contains_key(p),
        forall|p: Seq<u8>| #[trigger]
            fs.contains_key(p) ==> fs[p].to_multiset() == other[p].to_multiset()
                && distinct_paths(kept(fs[p])),
    ensures
        render_dir(fs, path, prefix, size_mode, depth) == render_dir(
            other,
            path,
            prefix,
            size_mode,
            depth,
        ),
    decreases depth, 1nat, 0nat,
{
    if fs.contains_key(path) {
        lemma_arranged_ignores_listing_order(fs[path], other[path]);
        lemma_entries_ignore_listing_order(
            fs,
            other,
            arranged(fs[path]),
            prefix,
            size_mode,
            depth,
        );
    }
}

/// The same of the children of one directory and of all below them.
proof fn lemma_entries_ignore_listing_order(
    fs: Snapshot,
    other: Snapshot,
    rest: Seq<EntryView>,
    prefix: Seq<char>,
    size_mode: bool,
    depth: nat,
)
    requires
        forall|p: Seq<u8>| fs.contains_key(p) <==> other.contains_key(p),
        forall|p: Seq<u8>| #[trigger]
            fs.contains_key(p) ==> fs[p].to_multiset() == other[p].to_multiset()
                && distinct_paths(kept(fs[p])),
    ensures
        render_entries(fs, rest, prefix, size_mode, depth) == render_entries(
            other,
            rest,
            prefix,
            size_mode,
            depth,
        ),
    decreases depth, 0nat, rest.len(),
{
    if rest.len() > 0 {
        let entry = rest.first();
        let is_last = rest.len() == 1;
        if entry.kind == EntryKind::Directory && depth > 0 {
            lemma_tree_ignores_listing_order(
                fs,
                other,
                entry.path,
                child_prefix_text(prefix, is_last),
                size_mode,
                (depth - 1) as nat,
            );
        }
        lemma_entries_ignore_listing_order(
            fs,
            other,
            rest.drop_first(),
            prefix,
            size_mode,
            depth,
        );
    }
}

} // verus!
