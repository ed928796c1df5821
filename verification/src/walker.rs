//! The walk itself, as a machine that the caller drives.
//!
//! The walker never touches a directory. It names the directory whose
//! listing it needs next; the caller reads that directory and hands the
//! listing over, or reports that it could not be read; the walker answers
//! with the lines to print, in order, up to the point where it needs the
//! next listing.

use vstd::prelude::*;
use vstd::string::*;
use crate::arrange::{arrange, arranged};
use crate::entry::{entry_views, Entry, EntryView};
use crate::model::{sibling_row, texts, Row};
use crate::text::{child_prefix, extend_prefix, format_line};

verus! {

/// A directory that waits to be listed.
struct Request {
    path: String,
    prefix: String,
    depth: usize,
}

/// What a [`Request`] holds, as mathematical values.
pub struct RequestView {
    /// The path of the directory.
    pub path: Seq<char>,
    /// The indentation of its children.
    pub prefix: Seq<char>,
    /// The levels still to show, its children's level included.
    pub depth: nat,
}

impl View for Request {
    type V = RequestView;

    closed spec fn view(&self) -> RequestView {
        RequestView { path: self.path@, prefix: self.prefix@, depth: self.depth as nat }
    }
}

/// One directory on the way from the root to where the walk stands: its
/// arranged entries and how far they have been printed.
struct Frame {
    entries: Vec<Entry>,
    next: usize,
    prefix: String,
    depth: usize,
}

/// What a [`Frame`] holds, as mathematical values.
pub struct FrameView {
    /// The shown entries of the directory, in printing order.
    pub entries: Seq<EntryView>,
    /// The index of the first entry not yet printed.
    pub next: nat,
    /// The indentation of the entries.
    pub prefix: Seq<char>,
    /// The levels still to show, this one included.
    pub depth: nat,
}

impl View for Frame {
    type V = FrameView;

    closed spec fn view(&self) -> FrameView {
        FrameView {
            entries: entry_views(self.entries@),
            next: self.next as nat,
            prefix: self.prefix@,
            depth: self.depth as nat,
        }
    }
}

/// The state of a walk between two listings.
pub struct Walker {
    show_hidden: bool,
    frames: Vec<Frame>,
    pending: Option<Request>,
    failed: bool,
}

/// What a [`Walker`] holds, as mathematical values.
pub struct WalkerView {
    /// Whether entries whose name begins with a dot are shown.
    pub show_hidden: bool,
    /// The directories on the way from the root to where the walk stands,
    /// the root first. The entries of `frames[i]` lie at level `i + 1`.
    pub frames: Seq<FrameView>,
    /// The directory whose listing the walk waits for, if it waits for one.
    pub pending: Option<RequestView>,
    /// Whether a directory could not be listed.
    pub failed: bool,
}

/// Lines printed in one go, and the state the walk is in after them.
pub struct Burst {
    pub rows: Seq<Row>,
    pub state: WalkerView,
}

/// The views of strings, one for one.
pub open spec fn string_views(lines: Seq<String>) -> Seq<Seq<char>> {
    lines.map_values(|s: String| s@)
}

/// The entries of the top frame that are not yet printed; 0 without a frame.
pub open spec fn top_left(frames: Seq<FrameView>) -> int {
    if frames.len() > 0 {
        frames.last().entries.len() - frames.last().next
    } else {
        0
    }
}

impl WalkerView {
    /// The state before anything is listed: the root waits to be listed,
    /// unless there is no level to show. `prefix` is the indentation of the
    /// root's children.
    pub open spec fn start(
        root: Seq<char>,
        prefix: Seq<char>,
        depth: nat,
        show_hidden: bool,
    ) -> WalkerView {
        WalkerView {
            show_hidden,
            frames: Seq::empty(),
            pending: if depth == 0 {
                None
            } else {
                Some(RequestView { path: root, prefix, depth })
            },
            failed: false,
        }
    }

    /// What holds of every state that a walk reaches: every directory on the
    /// way has a level to show, none is printed beyond its end, and without
    /// a directory to wait for the walk is over.
    pub open spec fn wf(self) -> bool {
        &&& forall|i: int|
            0 <= i < self.frames.len() ==> (#[trigger] self.frames[i]).depth > 0
                && self.frames[i].next <= self.frames[i].entries.len()
        &&& self.pending is Some ==> self.pending->0.depth > 0 && !self.failed
        &&& self.pending is None ==> self.frames.len() == 0
    }

    /// Whether the walk is over, by its end or by a failure.
    pub open spec fn finished(self) -> bool {
        self.pending is None
    }

    /// Prints on from a state that waits for no listing: entry after entry
    /// of the innermost directory, back to the enclosing one at its end, up
    /// to and with the first directory that has to be listed, or to the end
    /// of the walk.
    pub open spec fn advance(self) -> Burst
        decreases self.frames.len(), top_left(self.frames),
    {
        if self.frames.len() == 0 {
            Burst { rows: Seq::empty(), state: self }
        } else {
            let top = self.frames.last();
            let below = self.frames.drop_last();
            if top.next >= top.entries.len() {
                WalkerView { frames: below, ..self }.advance()
            } else {
                let row = sibling_row(
                    top.entries,
                    top.next as int,
                    top.prefix,
                    self.frames.len(),
                );
                let moved = below.push(FrameView { next: top.next + 1, ..top });
                if row.entry.is_dir && top.depth > 1 {
                    Burst {
                        rows: seq![row],
                        state: WalkerView {
                            frames: moved,
                            pending: Some(
                                RequestView {
                                    path: row.entry.path,
                                    prefix: child_prefix(top.prefix, row.is_last),
                                    depth: (top.depth - 1) as nat,
                                },
                            ),
                            ..self
                        },
                    }
                } else {
                    let rest = WalkerView { frames: moved, ..self }.advance();
                    Burst { rows: seq![row] + rest.rows, state: rest.state }
                }
            }
        }
    }

    /// The step taken when the directory that the walk waits for has been
    /// listed: its shown entries are arranged and printed from the first on.
    /// A walk that waits for nothing stays as it is.
    pub open spec fn after_listing(self, listing: Seq<EntryView>) -> Burst {
        match self.pending {
            Some(request) => WalkerView {
                frames: self.frames.push(
                    FrameView {
                        entries: arranged(listing, self.show_hidden),
                        next: 0,
                        prefix: request.prefix,
                        depth: request.depth,
                    },
                ),
                pending: None,
                ..self
            }.advance(),
            None => Burst { rows: Seq::empty(), state: self },
        }
    }

    /// The step taken when the directory that the walk waits for could not
    /// be listed: the walk is over, and has failed. A walk that waits for
    /// nothing stays as it is.
    pub open spec fn after_failure(self) -> WalkerView {
        if self.pending is Some {
            WalkerView { frames: Seq::empty(), pending: None, failed: true, ..self }
        } else {
            self
        }
    }
}

/// The views of frames, one for one.
spec fn frame_views(frames: Seq<Frame>) -> Seq<FrameView> {
    frames.map_values(|f: Frame| f@)
}

impl View for Walker {
    type V = WalkerView;

    closed spec fn view(&self) -> WalkerView {
        WalkerView {
            show_hidden: self.show_hidden,
            frames: frame_views(self.frames@),
            pending: match self.pending {
                Some(request) => Some(request@),
                None => None,
            },
            failed: self.failed,
        }
    }
}

impl Walker {
    /// A walk of the directory `root` that shows `depth` levels below it,
    /// the root's children behind `prefix`. With `depth` 0 the walk is over
    /// before it begins: no directory is listed and no line printed.
    pub fn start(root: String, prefix: String, depth: usize, show_hidden: bool) -> (walker: Walker)
        ensures
            walker@ == WalkerView::start(root@, prefix@, depth as nat, show_hidden),
    {
        let pending = if depth == 0 {
            None
        } else {
            Some(Request { path: root, prefix, depth })
        };
        let walker = Walker { show_hidden, frames: Vec::new(), pending, failed: false };
        assert(walker@.frames =~= Seq::<FrameView>::empty());
        walker
    }

    /// The path of the directory to list next, or `None` when the walk is
    /// over.
    pub fn next_directory(&self) -> (path: Option<&str>)
        ensures
            path is Some <==> self@.pending is Some,
            path is Some ==> path->0@ == self@.pending->0.path,
    {
        match &self.pending {
            Some(request) => Some(request.path.as_str()),
            None => None,
        }
    }

    /// Whether the walk is over.
    pub fn is_finished(&self) -> (done: bool)
        ensures
            done == self@.finished(),
    {
        self.pending.is_none()
    }

    /// Whether the walk was ended by a directory that could not be listed.
    pub fn has_failed(&self) -> (failed: bool)
        ensures
            failed == self@.failed,
    {
        self.failed
    }

    /// Hands the walk the listing of the directory it waits for, as it was
    /// read: unfiltered and in any order. Returns the lines to print now, in
    /// order: those of the directory's shown entries, and of what lies
    /// behind them in directories listed earlier, up to and with the first
    /// directory that has to be listed next, or to the end of the walk.
    ///
    /// A walk that waits for nothing returns no line and stays as it is.
    pub fn listed(&mut self, listing: &[Entry]) -> (lines: Vec<String>)
        ensures
            final(self)@ == old(self)@.after_listing(entry_views(listing@)).state,
            string_views(lines@) == texts(old(self)@.after_listing(entry_views(listing@)).rows),
    {
        match self.pending.take() {
            Some(request) => {
                let ghost below = frame_views(self.frames@);
                let entries = arrange(listing, self.show_hidden);
                let frame = Frame {
                    entries,
                    next: 0,
                    prefix: request.prefix,
                    depth: request.depth,
                };
                self.frames.push(frame);
                assert(frame_views(self.frames@) =~= below.push(frame@));
                self.run()
            },
            None => {
                let lines: Vec<String> = Vec::new();
                assert(string_views(lines@) =~= texts(Seq::<Row>::empty()));
                lines
            },
        }
    }

    /// Prints on until the walk has to wait for a listing, or is over.
    fn run(&mut self) -> (lines: Vec<String>)
        requires
            old(self)@.pending is None,
        ensures
            final(self)@ == old(self)@.advance().state,
            string_views(lines@) == texts(old(self)@.advance().rows),
    {
        let ghost target = self@.advance();
        let ghost mut rows: Seq<Row> = Seq::empty();
        let mut lines: Vec<String> = Vec::new();
        let mut going = self.frames.len() > 0;
        assert(string_views(lines@) =~= texts(rows));
        assert(rows + target.rows =~= target.rows);
        while going
            invariant
                going ==> self@.pending is None && self.frames@.len() > 0,
                string_views(lines@) == texts(rows),
                target == if going {
                    Burst { rows: rows + self@.advance().rows, state: self@.advance().state }
                } else {
                    Burst { rows, state: self@ }
                },
            decreases self.frames@.len(), top_left(frame_views(self.frames@)),
        {
            let ghost before = self@;
            let ghost below = before.frames.drop_last();
            let mut top = self.frames.pop().unwrap();
            assert(top@ == before.frames.last());
            assert(frame_views(self.frames@) =~= below);
            if top.next >= top.entries.len() {
                going = self.frames.len() > 0;
                assert(self@ == WalkerView { frames: below, ..before });
                proof {
                    if !going {
                        assert(rows + self@.advance().rows =~= rows);
                    }
                }
            } else {
                let is_last = top.next == top.entries.len() - 1;
                let entry = &top.entries[top.next];
                let ghost row = sibling_row(
                    top@.entries,
                    top.next as int,
                    top@.prefix,
                    before.frames.len(),
                );
                assert(row.entry == entry@);
                let line = format_line(top.prefix.as_str(), is_last, entry.name.as_str());
                let ghost lines_before = lines@;
                lines.push(line);
                proof {
                    assert(string_views(lines@) =~= string_views(lines_before).push(row.text()));
                    assert(texts(rows.push(row)) =~= texts(rows).push(row.text()));
                }
                let ghost moved = below.push(FrameView { next: top@.next + 1, ..top@ });
                if entry.is_dir && top.depth > 1 {
                    self.pending = Some(
                        Request {
                            path: entry.path.clone(),
                            prefix: extend_prefix(top.prefix.as_str(), is_last),
                            depth: top.depth - 1,
                        },
                    );
                    going = false;
                    proof {
                        assert(rows + seq![row] =~= rows.push(row));
                    }
                } else {
                    proof {
                        let rest = WalkerView { frames: moved, ..before }.advance();
                        assert(rows + (seq![row] + rest.rows) =~= rows.push(row) + rest.rows);
                    }
                }
                proof {
                    rows = rows.push(row);
                }
                top.next += 1;
                self.frames.push(top);
                assert(frame_views(self.frames@) =~= moved);
            }
        }
        lines
    }

    /// Tells the walk that the directory it waits for could not be listed.
    /// The walk is over, and nothing more is printed.
    pub fn listing_failed(&mut self)
        ensures
            final(self)@ == old(self)@.after_failure(),
    {
        if self.pending.is_some() {
            self.frames = Vec::new();
            self.pending = None;
            self.failed = true;
            assert(self@.frames =~= Seq::<FrameView>::empty());
        }
    }
}

} // verus!
