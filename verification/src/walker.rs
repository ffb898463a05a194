//! The walk over a hierarchy, one step at a time.
//!
//! A [`Walker`] decides what comes next: a line to show, or a directory that
//! it needs listed. Whoever drives it does the listing and the showing.

use vstd::prelude::*;
use crate::entry::{Entry, EntryKind, EntryView, Listing};
use crate::line::{child_prefix, child_prefix_text, entry_line, line_text};
use crate::order::{arrange, arranged};

verus! {

/// Why a walk ended early.
#[derive(Debug)]
pub enum TraversalError {
    /// The directory of this path could not be listed.
    Unreadable(Vec<u8>),
}

/// What a walker asks of its driver.
#[derive(Debug)]
pub enum Step {
    /// List the directory of this path, and hand the listing to
    /// [`Walker::supply`].
    List(Vec<u8>),
    /// Show this line.
    Emit(String),
    /// The walk is over: everything was shown.
    Done,
    /// The walk is over: a directory could not be listed.
    Failed(TraversalError),
}

/// A [`Step`] as a mathematical value.
pub enum StepView {
    List(Seq<u8>),
    Emit(Seq<char>),
    Done,
    Failed(Seq<u8>),
}

impl View for Step {
    type V = StepView;

    open spec fn view(&self) -> StepView {
        match self {
            Step::List(path) => StepView::List(path@),
            Step::Emit(line) => StepView::Emit(line@),
            Step::Done => StepView::Done,
            Step::Failed(TraversalError::Unreadable(path)) => StepView::Failed(path@),
        }
    }
}

/// One directory that is being shown: its children in the order of display,
/// how many of them were shown, and the prefix of their lines.
struct Frame {
    entries: Vec<Entry>,
    shown: usize,
    prefix: String,
}

/// A directory that is being shown: the children still to come, and the
/// prefix of their lines.
pub struct FrameView {
    pub rest: Seq<EntryView>,
    pub prefix: Seq<char>,
}

impl View for Frame {
    type V = FrameView;

    closed spec fn view(&self) -> FrameView {
        FrameView {
            rest: if self.shown <= self.entries.len() {
                self.entries.deep_view().skip(self.shown as int)
            } else {
                Seq::empty()
            },
            prefix: self.prefix@,
        }
    }
}

/// What a walker is about.
enum Phase {
    Walking,
    Awaiting { path: Vec<u8>, prefix: String },
    Failed { path: Vec<u8> },
}

/// What a walker is about.
pub enum PhaseView {
    /// It shows the children of the directories on its stack.
    Walking,
    /// It needs the listing of the directory `path`, whose children go behind
    /// `prefix`.
    Awaiting { path: Seq<u8>, prefix: Seq<char> },
    /// It has ended on the directory `path`, which could not be listed.
    Failed { path: Seq<u8> },
}

impl View for Phase {
    type V = PhaseView;

    closed spec fn view(&self) -> PhaseView {
        match self {
            Phase::Walking => PhaseView::Walking,
            Phase::Awaiting { path, prefix } => PhaseView::Awaiting {
                path: path@,
                prefix: prefix@,
            },
            Phase::Failed { path } => PhaseView::Failed { path: path@ },
        }
    }
}

/// A walk in progress.
pub struct Walker {
    frames: Vec<Frame>,
    phase: Phase,
    size_mode: bool,
}

/// A walk in progress: the directories that are being shown, the innermost
/// last, and what the walker is about.
pub struct WalkerView {
    pub frames: Seq<FrameView>,
    pub phase: PhaseView,
    pub size_mode: bool,
}

impl View for Walker {
    type V = WalkerView;

    closed spec fn view(&self) -> WalkerView {
        WalkerView {
            frames: self.frames@.map_values(|f: Frame| f@),
            phase: self.phase@,
            size_mode: self.size_mode,
        }
    }
}

/// A walk that has not begun: it needs the listing of `root`, whose children
/// go behind `prefix`.
pub open spec fn started(root: Seq<u8>, prefix: Seq<char>, size_mode: bool) -> WalkerView {
    WalkerView { frames: Seq::empty(), phase: PhaseView::Awaiting { path: root, prefix }, size_mode }
}

/// One step of a walk: the walk after it, and what it asks.
///
/// A walker that awaits a listing asks for it, again if need be; one that has
/// failed says so. Else directories whose children were all shown leave the
/// stack, and the next child of the innermost one left is shown; where that
/// child is a directory, the walker then awaits its listing. With nothing
/// left the walk is done.
pub open spec fn advanced(w: WalkerView) -> (WalkerView, StepView)
    decreases w.frames.len(),
{
    match w.phase {
        PhaseView::Failed { path } => (w, StepView::Failed(path)),
        PhaseView::Awaiting { path, .. } => (w, StepView::List(path)),
        PhaseView::Walking => if w.frames.len() == 0 {
            (w, StepView::Done)
        } else {
            let top = w.frames.last();
            let below = w.frames.drop_last();
            if top.rest.len() == 0 {
                advanced(WalkerView { frames: below, ..w })
            } else {
                let entry = top.rest.first();
                let is_last = top.rest.len() == 1;
                let frames = below.push(
                    FrameView { rest: top.rest.drop_first(), prefix: top.prefix },
                );
                let phase = if entry.kind == EntryKind::Directory {
                    PhaseView::Awaiting {
                        path: entry.path,
                        prefix: child_prefix_text(top.prefix, is_last),
                    }
                } else {
                    PhaseView::Walking
                };
                (
                    WalkerView { frames, phase, ..w },
                    StepView::Emit(line_text(top.prefix, entry, is_last, w.size_mode)),
                )
            }
        },
    }
}

/// A walk after it was handed a listing: `None` for a directory that cannot
/// be listed, which ends the walk. A walker that awaits none is left as it is.
pub open spec fn supplied(w: WalkerView, listing: Option<Seq<Option<EntryView>>>) -> WalkerView {
    match w.phase {
        PhaseView::Awaiting { path, prefix } => match listing {
            None => WalkerView { phase: PhaseView::Failed { path }, ..w },
            Some(children) => WalkerView {
                frames: w.frames.push(FrameView { rest: arranged(children), prefix }),
                phase: PhaseView::Walking,
                ..w
            },
        },
        _ => w,
    }
}

/// A copy of `bytes`.
fn copy_of(bytes: &Vec<u8>) -> (copy: Vec<u8>)
    ensures
        copy@ == bytes@,
{
    let mut copy: Vec<u8> = Vec::with_capacity(bytes.len());
    let mut i: usize = 0;
    while i < bytes.len()
        invariant
            i <= bytes.len(),
            copy@ == bytes@.take(i as int),
        decreases bytes.len() - i,
    {
        copy.push(bytes[i]);
        assert(bytes@.take(i as int).push(bytes@[i as int]) =~= bytes@.take(i as int + 1));
        i += 1;
    }
    assert(bytes@.take(bytes.len() as int) =~= bytes@);
    copy
}

impl Walker {
    /// A walker for the hierarchy below the directory `root`. Every line
    /// begins with `prefix`, which is empty for a tree that stands alone. With
    /// `size_mode` the lines of files carry their sizes.
    pub fn new(root: Vec<u8>, prefix: String, size_mode: bool) -> (walker: Walker)
        ensures
            walker@ == started(root@, prefix@, size_mode),
    {
        let walker = Walker {
            frames: Vec::new(),
            phase: Phase::Awaiting { path: root, prefix },
            size_mode,
        };
        assert(walker@.frames =~= Seq::empty());
        walker
    }

    /// Takes one step: says what the driver is to do next.
    pub fn next(&mut self) -> (step: Step)
        ensures
            (final(self)@, step@) == advanced(old(self)@),
    {
        match &self.phase {
            Phase::Failed { path } => {
                return Step::Failed(TraversalError::Unreadable(copy_of(path)));
            },
            Phase::Awaiting { path, .. } => {
                return Step::List(copy_of(path));
            },
            Phase::Walking => {},
        }
        loop
            invariant
                self.phase@ == PhaseView::Walking,
                advanced(self@) == advanced(old(self)@),
            decreases self.frames.len(),
        {
            let ghost before = self@;
            let mut top = match self.frames.pop() {
                None => {
                    return Step::Done;
                },
                Some(frame) => frame,
            };
            assert(self@.frames =~= before.frames.drop_last());
            assert(top@ == before.frames.last());
            if top.shown < top.entries.len() {
                let is_last = top.shown + 1 == top.entries.len();
                let entry = &top.entries[top.shown];
                assert(entry@ == top@.rest.first());
                let line = entry_line(top.prefix.as_str(), entry, is_last, self.size_mode);
                match entry.kind {
                    EntryKind::Directory => {
                        self.phase = Phase::Awaiting {
                            path: copy_of(&entry.path),
                            prefix: child_prefix(top.prefix.as_str(), is_last),
                        };
                    },
                    _ => {},
                }
                let ghost rest = top@.rest;
                top.shown = top.shown + 1;
                assert(top@.rest =~= rest.drop_first());
                self.frames.push(top);
                assert(self@.frames =~= before.frames.drop_last().push(top@));
                return Step::Emit(line);
            }
        }
    }

    /// Hands the walker the listing that it asked for: `None` where the
    /// directory cannot be listed. A walker that awaits no listing ignores it.
    pub fn supply(&mut self, listing: Listing)
        ensures
            final(self)@ == supplied(old(self)@, listing.deep_view()),
    {
        let mut phase = Phase::Walking;
        core::mem::swap(&mut self.phase, &mut phase);
        match phase {
            Phase::Awaiting { path, prefix } => {
                match listing {
                    None => {
                        self.phase = Phase::Failed { path };
                    },
                    Some(children) => {
                        let entries = arrange(children);
                        let frame = Frame { entries, shown: 0, prefix };
                        assert(frame@.rest =~= arranged(children.deep_view()));
                        self.frames.push(frame);
                        assert(self@.frames =~= old(self)@.frames.push(frame@));
                    },
                }
            },
            other => {
                self.phase = other;
            },
        }
    }
}

} // verus!
