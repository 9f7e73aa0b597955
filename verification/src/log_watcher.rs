//! Following the log: what to do with each line, and when to begin anew.
use vstd::prelude::*;

use crate::text;

verus! {

/// How long to wait for the log to grow, in milliseconds.
pub const POLL_INTERVAL_MS: u64 = 250;

/// How long to wait before the log is opened again, in milliseconds.
pub const REOPEN_BACKOFF_MS: u64 = 2000;

/// What came of an attempt to read a line.
#[derive(Debug)]
pub enum ReadEvent {
    /// A line with its line ends, and how many bytes it took; without a line
    /// feed, what the file holds so far of its last line.
    Line { text: String, bytes: u64 },
    /// The end of the file, and how long the file is now; nothing where it is
    /// gone.
    End { len: Option<u64> },
}

/// What to do next.
#[derive(Debug)]
pub enum TailAction {
    /// Hand on a line.
    Send(String),
    /// Go back to where the line begins, and see how long the file is.
    Hold,
    /// Wait for the file to grow.
    Wait,
    /// Open the file again, from its beginning.
    Reopen,
}

/// What to do next.
pub ghost enum TailView {
    Send(Seq<char>),
    Hold,
    Wait,
    Reopen,
}

impl View for TailAction {
    type V = TailView;

    open spec fn view(&self) -> TailView {
        match self {
            TailAction::Send(s) => TailView::Send(s@),
            TailAction::Hold => TailView::Hold,
            TailAction::Wait => TailView::Wait,
            TailAction::Reopen => TailView::Reopen,
        }
    }
}

/// A line without line feeds and carriage returns at its end.
pub open spec fn without_ends(s: Seq<char>) -> Seq<char>
    decreases s.len(),
{
    if s.len() > 0 && (s.last() == '\n' || s.last() == '\r') {
        without_ends(s.drop_last())
    } else {
        s
    }
}

/// A line without its line ends.
pub fn trim_line(s: &str) -> (r: String)
    ensures
        r@ == without_ends(s@),
{
    let a = text::chars_of(s);
    let mut n: usize = a.len();
    assert(a@.take(n as int) =~= a@);
    while n > 0 && (a[n - 1] == '\n' || a[n - 1] == '\r')
        invariant
            n <= a@.len(),
            without_ends(a@) == without_ends(a@.take(n as int)),
        decreases n,
    {
        assert(a@.take(n as int).drop_last() =~= a@.take(n - 1));
        n -= 1;
    }
    assert(a@.subrange(0, n as int) =~= a@.take(n as int));
    text::slice_of(&a, 0, n)
}

/// The line is whole: it ends in a line feed.
pub open spec fn is_whole(text: Seq<char>) -> bool {
    text.len() > 0 && text.last() == '\n'
}

/// What to do after reading, with so many bytes handed on before: whole lines
/// are handed on, and a line that is not whole yet is read again; at the end, a
/// file that is shorter than what was handed on was begun anew, and one that is
/// gone will come again.
pub open spec fn tailed(position: int, event: ReadEvent) -> (int, TailView) {
    match event {
        ReadEvent::Line { text, bytes } => if is_whole(text@) {
            (position + bytes, TailView::Send(without_ends(text@)))
        } else {
            (position, TailView::Hold)
        },
        ReadEvent::End { len: Some(n) } => (
            position,
            if n < position {
                TailView::Reopen
            } else {
                TailView::Wait
            },
        ),
        ReadEvent::End { len: None } => (position, TailView::Reopen),
    }
}

/// What to do after reading.
pub fn tail_step(position: u64, event: ReadEvent) -> (r: (u64, TailAction))
    requires
        event matches ReadEvent::Line { bytes, .. } ==> position + bytes <= u64::MAX,
    ensures
        r.0 == tailed(position as int, event).0,
        r.1@ == tailed(position as int, event).1,
{
    match event {
        ReadEvent::Line { text, bytes } => {
            let a = text::chars_of(text.as_str());
            if a.len() > 0 && a[a.len() - 1] == '\n' {
                (position + bytes, TailAction::Send(trim_line(text.as_str())))
            } else {
                (position, TailAction::Hold)
            }
        },
        ReadEvent::End { len: Some(n) } => if n < position {
            (position, TailAction::Reopen)
        } else {
            (position, TailAction::Wait)
        },
        ReadEvent::End { len: None } => (position, TailAction::Reopen),
    }
}

/// The position after one reading after another, and the lines handed on.
pub open spec fn followed(position: int, events: Seq<ReadEvent>) -> (int, Seq<Seq<char>>)
    decreases events.len(),
{
    if events.len() == 0 {
        (position, seq![])
    } else {
        let (at, lines) = followed(position, events.drop_last());
        let (next, action) = tailed(at, events.last());
        match action {
            TailView::Send(line) => (next, lines.push(line)),
            _ => (next, lines),
        }
    }
}

/// How many bytes the whole lines among what was read take, and their texts.
pub open spec fn whole_lines(events: Seq<ReadEvent>) -> (int, Seq<Seq<char>>)
    decreases events.len(),
{
    if events.len() == 0 {
        (0, seq![])
    } else {
        let (n, lines) = whole_lines(events.drop_last());
        match events.last() {
            ReadEvent::Line { text, bytes } if is_whole(text@) => (
                n + bytes,
                lines.push(without_ends(text@)),
            ),
            _ => (n, lines),
        }
    }
}

/// What is handed on is the whole lines, each once and in order, and nothing
/// else; the position moves by the bytes they take.
pub proof fn law_whole_lines_only(position: int, events: Seq<ReadEvent>)
    ensures
        followed(position, events).0 == position + whole_lines(events).0,
        followed(position, events).1 == whole_lines(events).1,
    decreases events.len(),
{
    if events.len() > 0 {
        law_whole_lines_only(position, events.drop_last());
    }
}

/// A line that is handed on has no line end left.
pub proof fn law_no_line_ends(s: Seq<char>)
    ensures
        without_ends(s).len() > 0 ==> without_ends(s).last() != '\n' && without_ends(s).last()
            != '\r',
    decreases s.len(),
{
    if s.len() > 0 {
        law_no_line_ends(s.drop_last());
    }
}

/// What follows from what was read: a line with its line end is handed on as it
/// was written, and counted; one without its line feed is not handed on, and not
/// counted.
pub proof fn law_lines_handed_on(position: int, text: String, bytes: u64, line: Seq<char>)
    requires
        line.len() == 0 || (line.last() != '\n' && line.last() != '\r'),
    ensures
        ({
            let event = ReadEvent::Line { text, bytes };
            &&& text@ == line + seq!['\n'] ==> tailed(position, event) == (
                position + bytes,
                TailView::Send(line),
            )
            &&& text@ == line + seq!['\r', '\n'] ==> tailed(position, event) == (
                position + bytes,
                TailView::Send(line),
            )
            &&& text@ == line ==> tailed(position, event) == (position, TailView::Hold)
            &&& text@ == line + seq!['\r'] ==> tailed(position, event) == (position, TailView::Hold)
        }),
{
    let lf = line + seq!['\n'];
    let crlf = line + seq!['\r', '\n'];
    assert(without_ends(line) == line);
    assert(lf.drop_last() =~= line);
    assert(crlf.drop_last() =~= line + seq!['\r']);
    assert((line + seq!['\r']).drop_last() =~= line);
    assert(without_ends(lf) == line);
    assert(without_ends(line + seq!['\r']) == line);
    assert(without_ends(crlf) == line);
}

/// At the end of the file nothing is handed on. A file that is shorter than what
/// was handed on, or that is gone, is opened again; any other is waited for.
pub proof fn law_end_of_file(position: int, n: u64)
    ensures
        tailed(position, ReadEvent::End { len: None }) == (position, TailView::Reopen),
        n < position ==> tailed(position, ReadEvent::End { len: Some(n) }) == (
            position,
            TailView::Reopen,
        ),
        n >= position ==> tailed(position, ReadEvent::End { len: Some(n) }) == (
            position,
            TailView::Wait,
        ),
{
}

} // verus!
