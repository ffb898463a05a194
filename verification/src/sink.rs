//! Where the lines of a tree go: out at once, or into a buffer that becomes
//! the text of a file.

use vstd::prelude::*;

verus! {

/// The destination of the lines.
#[derive(Debug)]
pub enum Sink {
    /// Each line is to be written as it comes; nothing is kept.
    Immediate,
    /// Each line is added to the text kept here.
    Buffered(String),
}

/// A [`Sink`] as a mathematical value.
pub enum SinkView {
    Immediate,
    Buffered(Seq<char>),
}

impl View for Sink {
    type V = SinkView;

    open spec fn view(&self) -> SinkView {
        match self {
            Sink::Immediate => SinkView::Immediate,
            Sink::Buffered(text) => SinkView::Buffered(text@),
        }
    }
}

/// A line with the terminator behind it.
pub open spec fn terminated(line: Seq<char>) -> Seq<char> {
    line.push('\n')
}

/// What a sink is after it took `line`, and what is to be written at once.
pub open spec fn emitted(sink: SinkView, line: Seq<char>) -> (SinkView, Option<Seq<char>>) {
    match sink {
        SinkView::Immediate => (SinkView::Immediate, Some(terminated(line))),
        SinkView::Buffered(text) => (SinkView::Buffered(text + terminated(line)), None),
    }
}

/// The text that a sink has kept: none for one that keeps nothing.
pub open spec fn finalized(sink: SinkView) -> Option<Seq<char>> {
    match sink {
        SinkView::Immediate => None,
        SinkView::Buffered(text) => Some(text),
    }
}

/// What a sink is after it took each of `lines` in turn.
pub open spec fn emitted_all(sink: SinkView, lines: Seq<Seq<char>>) -> SinkView
    decreases lines.len(),
{
    if lines.len() == 0 {
        sink
    } else {
        emitted(emitted_all(sink, lines.drop_last()), lines.last()).0
    }
}

/// The text of `lines`: each with its terminator, one behind the other.
pub open spec fn text_of(lines: Seq<Seq<char>>) -> Seq<char>
    decreases lines.len(),
{
    if lines.len() == 0 {
        Seq::empty()
    } else {
        text_of(lines.drop_last()) + terminated(lines.last())
    }
}

/// A sink that keeps its lines holds, after any number of them, the text of
/// them all behind what it held before; one that keeps nothing stays as it
/// is.
pub proof fn lemma_sink_keeps_every_line(held: Seq<char>, lines: Seq<Seq<char>>)
    ensures
        emitted_all(SinkView::Buffered(held), lines) == SinkView::Buffered(held + text_of(lines)),
        emitted_all(SinkView::Immediate, lines) == SinkView::Immediate,
    decreases lines.len(),
{
    if lines.len() == 0 {
        assert(held + text_of(lines) =~= held);
    } else {
        lemma_sink_keeps_every_line(held, lines.drop_last());
        assert((held + text_of(lines.drop_last())) + terminated(lines.last()) =~= held + text_of(
            lines,
        ));
    }
}

/// The opening of the fence round a saved tree.
pub open spec fn fence_open() -> Seq<char> {
    seq!['`', '`', '`', 't', 'e', 'x', 't', '\n']
}

/// The closing of the fence round a saved tree.
pub open spec fn fence_close() -> Seq<char> {
    seq!['\n', '`', '`', '`']
}

/// A text inside the fence of a code block.
pub open spec fn fenced_text(text: Seq<char>) -> Seq<char> {
    fence_open() + text + fence_close()
}

impl Sink {
    /// A sink that keeps nothing.
    pub fn immediate() -> (sink: Sink)
        ensures
            sink@ == SinkView::Immediate,
    {
        Sink::Immediate
    }

    /// A sink that keeps every line, empty so far.
    pub fn buffered() -> (sink: Sink)
        ensures
            sink@ == SinkView::Buffered(Seq::empty()),
    {
        Sink::Buffered(String::new())
    }

    /// Takes one line. A sink that keeps nothing hands back the line with its
    /// terminator, to be written now; one that keeps its lines adds the line
    /// and its terminator to them, and hands back nothing.
    pub fn emit(&mut self, line: &str) -> (now: Option<String>)
        ensures
            final(self)@ == emitted(old(self)@, line@).0,
            now.deep_view() == emitted(old(self)@, line@).1,
    {
        proof {
            reveal_strlit("\n");
        }
        match self {
            Sink::Immediate => {
                let mut text = String::from_str(line);
                text.append("\n");
                assert(text@ =~= terminated(line@));
                Some(text)
            },
            Sink::Buffered(text) => {
                let ghost before = text@;
                text.append(line);
                text.append("\n");
                assert(text@ =~= before + terminated(line@));
                None
            },
        }
    }

    /// Ends the sink and hands out the text that it kept, if it kept any.
    pub fn finalize(self) -> (text: Option<String>)
        ensures
            text.deep_view() == finalized(self@),
    {
        match self {
            Sink::Immediate => None,
            Sink::Buffered(text) => Some(text),
        }
    }
}

/// Puts a text inside the fence of a code block, as it is saved to a file.
pub fn fenced(text: &str) -> (wrapped: String)
    ensures
        wrapped@ == fenced_text(text@),
{
    proof {
        reveal_strlit("```text\n");
        reveal_strlit("\n```");
    }
    let mut wrapped = String::from_str("```text\n");
    wrapped.append(text);
    wrapped.append("\n```");
    assert(wrapped@ =~= fenced_text(text@));
    wrapped
}

} // verus!
