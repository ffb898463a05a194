//! What the steps of a walker add up to: driven over a hierarchy, it shows
//! the tree of that hierarchy.

use vstd::prelude::*;
use crate::entry::{EntryKind, EntryView};
use crate::line::{child_prefix_text, line_text};
use crate::order::arranged;
use crate::render::{entries_within, render_dir, render_entries, within_depth, Rendering, Snapshot};
use crate::walker::{advanced, started, supplied, FrameView, PhaseView, StepView, WalkerView};

verus! {

/// What listing the directory `path` gives in `fs`.
pub open spec fn listing_of(fs: Snapshot, path: Seq<u8>) -> Option<Seq<Option<EntryView>>> {
    if fs.contains_key(path) {
        Some(fs[path])
    } else {
        None
    }
}

/// How many levels may lie below the children of the directory at `level` of
/// the stack, where `depth` may lie below the root.
pub open spec fn depth_at(depth: nat, level: nat) -> nat {
    if level <= depth {
        (depth - level) as nat
    } else {
        0
    }
}

/// What the directories on the stack have still to show, the innermost
/// first.
pub open spec fn frames_pending(
    fs: Snapshot,
    frames: Seq<FrameView>,
    size_mode: bool,
    depth: nat,
) -> Rendering
    decreases frames.len(),
{
    if frames.len() == 0 {
        Rendering::nothing()
    } else {
        let top = frames.last();
        render_entries(
            fs,
            top.rest,
            top.prefix,
            size_mode,
            depth_at(depth, (frames.len() - 1) as nat),
        ).followed_by(frames_pending(fs, frames.drop_last(), size_mode, depth))
    }
}

/// What a walk over `fs` has still to show from the state `w`.
pub open spec fn pending(fs: Snapshot, w: WalkerView, depth: nat) -> Rendering {
    match w.phase {
        PhaseView::Failed { path } => Rendering::unreadable(path),
        PhaseView::Awaiting { path, prefix } => render_dir(
            fs,
            path,
            prefix,
            w.size_mode,
            depth_at(depth, w.frames.len()),
        ).followed_by(frames_pending(fs, w.frames, w.size_mode, depth)),
        PhaseView::Walking => frames_pending(fs, w.frames, w.size_mode, depth),
    }
}

/// Whether all that the walk has still to visit lies within `depth` levels
/// below the root.
pub open spec fn walk_within(fs: Snapshot, w: WalkerView, depth: nat) -> bool {
    &&& forall|k: int|
        0 <= k < w.frames.len() ==> k <= depth && entries_within(
            fs,
            (#[trigger] w.frames[k]).rest,
            depth_at(depth, k as nat),
        )
    &&& w.phase matches PhaseView::Awaiting { path, prefix } ==> w.frames.len() <= depth
        && within_depth(fs, path, depth_at(depth, w.frames.len()))
}

/// Showing one thing behind another, behind a third, comes to the same
/// however the three are grouped.
pub proof fn lemma_followed_by_associative(a: Rendering, b: Rendering, c: Rendering)
    ensures
        a.followed_by(b).followed_by(c) == a.followed_by(b.followed_by(c)),
{
    if a.failure is None && b.failure is None {
        assert((a.lines + b.lines) + c.lines =~= a.lines + (b.lines + c.lines));
    }
}

/// Nothing in front changes nothing.
pub proof fn lemma_nothing_followed_by(a: Rendering)
    ensures
        Rendering::nothing().followed_by(a) == a,
        a.followed_by(Rendering::nothing()) == a,
{
    assert(Seq::<Seq<char>>::empty() + a.lines =~= a.lines);
    assert(a.lines + Seq::<Seq<char>>::empty() =~= a.lines);
}

/// A walk that has not begun has the whole tree to show.
pub proof fn lemma_started_has_all_pending(
    fs: Snapshot,
    root: Seq<u8>,
    prefix: Seq<char>,
    size_mode: bool,
    depth: nat,
)
    ensures
        pending(fs, started(root, prefix, size_mode), depth) == render_dir(
            fs,
            root,
            prefix,
            size_mode,
            depth,
        ),
        within_depth(fs, root, depth) ==> walk_within(
            fs,
            started(root, prefix, size_mode),
            depth,
        ),
{
    lemma_nothing_followed_by(render_dir(fs, root, prefix, size_mode, depth));
}

/// A step shows the first of what was pending and leaves the rest pending:
/// the line of a step that shows one is the first line that was pending, a
/// walk that is done had nothing pending, and one that failed had nothing but
/// its failure. A step that asks for a listing changes nothing.
pub proof fn lemma_step_takes_first_pending(fs: Snapshot, w: WalkerView, depth: nat)
    requires
        walk_within(fs, w, depth),
    ensures
        walk_within(fs, advanced(w).0, depth),
        match advanced(w).1 {
            StepView::Emit(line) => pending(fs, w, depth) == Rendering::line(line).followed_by(
                pending(fs, advanced(w).0, depth),
            ),
            StepView::List(path) => advanced(w).0 == w && (w.phase matches PhaseView::Awaiting {
                path: awaited,
                prefix,
            } && awaited == path),
            StepView::Done => pending(fs, w, depth) == Rendering::nothing(),
            StepView::Failed(path) => pending(fs, w, depth) == Rendering::unreadable(path),
        },
    decreases w.frames.len(),
{
    if w.phase == PhaseView::Walking && w.frames.len() > 0 {
        let n = w.frames.len();
        let top = w.frames.last();
        let below = w.frames.drop_last();
        let d = depth_at(depth, (n - 1) as nat);
        let deeper = frames_pending(fs, below, w.size_mode, depth);
        assert(top == w.frames[n - 1]);
        if top.rest.len() == 0 {
            let popped = WalkerView { frames: below, ..w };
            assert(walk_within(fs, popped, depth)) by {
                assert forall|k: int| 0 <= k < below.len() implies k <= depth && entries_within(
                    fs,
                    (#[trigger] below[k]).rest,
                    depth_at(depth, k as nat),
                ) by {
                    assert(below[k] == w.frames[k]);
                }
            }
            lemma_step_takes_first_pending(fs, popped, depth);
            lemma_nothing_followed_by(deeper);
        } else {
            let entry = top.rest.first();
            let is_last = top.rest.len() == 1;
            let next = advanced(w).0;
            let line = line_text(top.prefix, entry, is_last, w.size_mode);
            let own = Rendering::line(line);
            let tail = render_entries(fs, top.rest.drop_first(), top.prefix, w.size_mode, d);
            let opened = entry.kind == EntryKind::Directory && d > 0;
            let inside = if opened {
                render_dir(
                    fs,
                    entry.path,
                    child_prefix_text(top.prefix, is_last),
                    w.size_mode,
                    (d - 1) as nat,
                )
            } else {
                Rendering::nothing()
            };
            assert(next.frames.drop_last() =~= below);
            assert(next.frames.last().rest == top.rest.drop_first());
            assert(frames_pending(fs, next.frames, w.size_mode, depth) == tail.followed_by(
                deeper,
            ));
            assert(pending(fs, w, depth) == own.followed_by(inside).followed_by(tail).followed_by(
                deeper,
            ));
            lemma_followed_by_associative(own.followed_by(inside), tail, deeper);
            lemma_followed_by_associative(own, inside, tail.followed_by(deeper));
            if entry.kind == EntryKind::Directory {
                assert(d > 0);
                assert(depth_at(depth, n) == d - 1);
            } else {
                lemma_nothing_followed_by(tail.followed_by(deeper));
            }
            assert(walk_within(fs, next, depth)) by {
                assert forall|k: int| 0 <= k < next.frames.len() implies k <= depth
                    && entries_within(
                    fs,
                    (#[trigger] next.frames[k]).rest,
                    depth_at(depth, k as nat),
                ) by {
                    if k < n - 1 {
                        assert(next.frames[k] == w.frames[k]);
                    }
                }
            }
        }
    }
}

/// Handing a walker the listing that the hierarchy gives for the directory
/// that it awaits leaves pending what was pending.
pub proof fn lemma_supply_keeps_pending(fs: Snapshot, w: WalkerView, depth: nat)
    requires
        walk_within(fs, w, depth),
        w.phase is Awaiting,
    ensures
        walk_within(fs, supplied(w, listing_of(fs, w.phase->Awaiting_path)), depth),
        pending(fs, supplied(w, listing_of(fs, w.phase->Awaiting_path)), depth) == pending(
            fs,
            w,
            depth,
        ),
{
    let path = w.phase->Awaiting_path;
    let prefix = w.phase->Awaiting_prefix;
    let next = supplied(w, listing_of(fs, path));
    if fs.contains_key(path) {
        let n = w.frames.len();
        assert(next.frames.drop_last() =~= w.frames);
        assert(next.frames.last().rest == arranged(fs[path]));
        assert forall|k: int| 0 <= k < next.frames.len() implies k <= depth && entries_within(
            fs,
            (#[trigger] next.frames[k]).rest,
            depth_at(depth, k as nat),
        ) by {
            if k < n {
                assert(next.frames[k] == w.frames[k]);
            }
        }
    }
}

/// What a driver sees of the walk from `w` over `fs` in at most `steps`
/// steps: it shows each line that a step gives, answers each request with
/// the listing that `fs` has, and stops when the walker is done or has
/// failed.
pub open spec fn walked(fs: Snapshot, w: WalkerView, steps: nat) -> Rendering
    decreases steps,
{
    if steps == 0 {
        Rendering::nothing()
    } else {
        let next = advanced(w).0;
        match advanced(w).1 {
            StepView::Emit(line) => Rendering::line(line).followed_by(
                walked(fs, next, (steps - 1) as nat),
            ),
            StepView::List(path) => walked(
                fs,
                supplied(next, listing_of(fs, path)),
                (steps - 1) as nat,
            ),
            StepView::Done => Rendering::nothing(),
            StepView::Failed(path) => Rendering::unreadable(path),
        }
    }
}

/// No more steps than this does it take to show the directory `path` with
/// all that lies within `depth` levels below it: one to ask for each
/// listing, one for each line.
pub open spec fn steps_for_dir(fs: Snapshot, path: Seq<u8>, depth: nat) -> nat
    decreases depth, 1nat, 0nat,
{
    if fs.contains_key(path) {
        1 + steps_for_entries(fs, arranged(fs[path]), depth)
    } else {
        1
    }
}

/// No more steps than this does it take to show the children `rest` with all
/// that lies within `depth` levels below their directory.
pub open spec fn steps_for_entries(fs: Snapshot, rest: Seq<EntryView>, depth: nat) -> nat
    decreases depth, 0nat, rest.len(),
{
    if rest.len() == 0 {
        0
    } else {
        let inside = if rest.first().kind == EntryKind::Directory && depth > 0 {
            steps_for_dir(fs, rest.first().path, (depth - 1) as nat)
        } else {
            0
        };
        1 + inside + steps_for_entries(fs, rest.drop_first(), depth)
    }
}

/// No more steps than this does it take to show what the directories on the
/// stack have pending.
pub open spec fn steps_for_frames(fs: Snapshot, frames: Seq<FrameView>, depth: nat) -> nat
    decreases frames.len(),
{
    if frames.len() == 0 {
        0
    } else {
        steps_for_entries(fs, frames.last().rest, depth_at(depth, (frames.len() - 1) as nat))
            + steps_for_frames(fs, frames.drop_last(), depth)
    }
}

/// No more steps than this does the walk take from the state `w` to the step
/// that ends it.
pub open spec fn steps_pending(fs: Snapshot, w: WalkerView, depth: nat) -> nat {
    match w.phase {
        PhaseView::Failed { path } => 0,
        PhaseView::Awaiting { path, prefix } => steps_for_dir(
            fs,
            path,
            depth_at(depth, w.frames.len()),
        ) + steps_for_frames(fs, w.frames, depth),
        PhaseView::Walking => steps_for_frames(fs, w.frames, depth),
    }
}

/// A step that shows a line brings the end of the walk nearer.
proof fn lemma_line_brings_end_nearer(fs: Snapshot, w: WalkerView, depth: nat)
    requires
        walk_within(fs, w, depth),
        advanced(w).1 is Emit,
    ensures
        steps_pending(fs, advanced(w).0, depth) < steps_pending(fs, w, depth),
    decreases w.frames.len(),
{
    let n = w.frames.len();
    let top = w.frames.last();
    let below = w.frames.drop_last();
    assert(top == w.frames[n - 1]);
    if top.rest.len() == 0 {
        let popped = WalkerView { frames: below, ..w };
        assert(walk_within(fs, popped, depth)) by {
            assert forall|k: int| 0 <= k < below.len() implies k <= depth && entries_within(
                fs,
                (#[trigger] below[k]).rest,
                depth_at(depth, k as nat),
            ) by {
                assert(below[k] == w.frames[k]);
            }
        }
        lemma_line_brings_end_nearer(fs, popped, depth);
    } else {
        let next = advanced(w).0;
        let d = depth_at(depth, (n - 1) as nat);
        assert(next.frames.drop_last() =~= below);
        assert(next.frames.last().rest == top.rest.drop_first());
        if top.rest.first().kind == EntryKind::Directory {
            assert(d > 0);
            assert(depth_at(depth, n) == d - 1);
        }
    }
}

/// Within enough steps a driver sees all that was pending.
proof fn lemma_walked_is_pending(fs: Snapshot, w: WalkerView, depth: nat, steps: nat)
    requires
        walk_within(fs, w, depth),
        steps > steps_pending(fs, w, depth),
    ensures
        walked(fs, w, steps) == pending(fs, w, depth),
    decreases steps,
{
    lemma_step_takes_first_pending(fs, w, depth);
    let next = advanced(w).0;
    match advanced(w).1 {
        StepView::Emit(line) => {
            lemma_line_brings_end_nearer(fs, w, depth);
            lemma_walked_is_pending(fs, next, depth, (steps - 1) as nat);
        },
        StepView::List(path) => {
            lemma_supply_keeps_pending(fs, w, depth);
            let answered = supplied(w, listing_of(fs, path));
            assert(steps_pending(fs, answered, depth) < steps_pending(fs, w, depth)) by {
                if fs.contains_key(path) {
                    assert(answered.frames.drop_last() =~= w.frames);
                }
            }
            lemma_walked_is_pending(fs, answered, depth, (steps - 1) as nat);
        },
        StepView::Done => {},
        StepView::Failed(path) => {},
    }
}

/// A walker driven over a hierarchy shows the tree of that hierarchy: the
/// lines that its steps give are those of the tree, in their order, and it
/// ends on a failure where the tree does, and on the same directory.
pub proof fn lemma_walk_shows_tree(
    fs: Snapshot,
    root: Seq<u8>,
    prefix: Seq<char>,
    size_mode: bool,
    depth: nat,
    steps: nat,
)
    requires
        within_depth(fs, root, depth),
        steps > steps_for_dir(fs, root, depth),
    ensures
        walked(fs, started(root, prefix, size_mode), steps) == render_dir(
            fs,
            root,
            prefix,
            size_mode,
            depth,
        ),
{
    lemma_started_has_all_pending(fs, root, prefix, size_mode, depth);
    lemma_walked_is_pending(fs, started(root, prefix, size_mode), depth, steps);
}

} // verus!
