//! The walker prints the rendering: whatever the directories hold, the lines
//! that a driven walk hands out, one listing after the other, are the lines
//! of the rendering of the root, in order, and the walk fails where the
//! rendering is cut short.

use vstd::prelude::*;
use crate::arrange::arranged;
use crate::entry::EntryView;
use crate::model::{
    failure, followed_by, lemma_followed_by_assoc, lemma_followed_by_nothing, nothing, render,
    render_from, sibling_row, single, Rendering, Row,
};
use crate::text::child_prefix;
use crate::walker::{top_left, Burst, FrameView, WalkerView};

verus! {

/// The rows, then `r`.
pub open spec fn prepend(rows: Seq<Row>, r: Rendering) -> Rendering {
    followed_by(Rendering { rows, complete: true }, r)
}

/// What is still to print of the directories on the way, the innermost
/// first: of each the entries not yet printed, with what lies below them.
pub open spec fn frames_rest(
    dirs: Map<Seq<char>, Seq<EntryView>>,
    frames: Seq<FrameView>,
    show_hidden: bool,
) -> Rendering
    decreases frames.len(),
{
    if frames.len() == 0 {
        nothing()
    } else {
        let top = frames.last();
        followed_by(
            render_from(
                dirs,
                top.entries,
                top.next as int,
                top.prefix,
                frames.len(),
                top.depth,
                show_hidden,
            ),
            frames_rest(dirs, frames.drop_last(), show_hidden),
        )
    }
}

/// What is still to print from the state `w` on, were every directory
/// listed as `dirs` says: the directory that the walk waits for, then the
/// rest of the directories on the way. After a failure nothing is left but
/// the failure.
pub open spec fn remaining(dirs: Map<Seq<char>, Seq<EntryView>>, w: WalkerView) -> Rendering {
    if w.failed {
        failure()
    } else {
        followed_by(
            match w.pending {
                Some(request) => render(
                    dirs,
                    request.path,
                    request.prefix,
                    w.frames.len() + 1,
                    request.depth,
                    w.show_hidden,
                ),
                None => nothing(),
            },
            frames_rest(dirs, w.frames, w.show_hidden),
        )
    }
}

/// A walk driven for at most `steps` listings: each listing that the walk
/// waits for is looked up in `dirs` and handed over, or reported as failed
/// where `dirs` has none. The rows are those handed out on the way.
pub open spec fn drive(dirs: Map<Seq<char>, Seq<EntryView>>, w: WalkerView, steps: nat) -> Burst
    decreases steps,
{
    if steps == 0 || w.pending is None {
        Burst { rows: Seq::empty(), state: w }
    } else if dirs.dom().contains(w.pending->0.path) {
        let first = w.after_listing(dirs[w.pending->0.path]);
        let rest = drive(dirs, first.state, (steps - 1) as nat);
        Burst { rows: first.rows + rest.rows, state: rest.state }
    } else {
        Burst { rows: Seq::empty(), state: w.after_failure() }
    }
}

/// Before anything is listed, all of the rendering of the root is still to
/// print.
pub proof fn lemma_start_remaining(
    dirs: Map<Seq<char>, Seq<EntryView>>,
    root: Seq<char>,
    prefix: Seq<char>,
    depth: nat,
    show_hidden: bool,
)
    ensures
        WalkerView::start(root, prefix, depth, show_hidden).wf(),
        remaining(dirs, WalkerView::start(root, prefix, depth, show_hidden)) == render(
            dirs,
            root,
            prefix,
            1,
            depth,
            show_hidden,
        ),
{
    let w = WalkerView::start(root, prefix, depth, show_hidden);
    lemma_followed_by_nothing(render(dirs, root, prefix, 1, depth, show_hidden));
    lemma_followed_by_nothing(nothing());
}

/// When a walk is over without a failure, nothing is left to print.
pub proof fn lemma_finished_remaining(dirs: Map<Seq<char>, Seq<EntryView>>, w: WalkerView)
    requires
        w.wf(),
        w.finished(),
    ensures
        remaining(dirs, w) == if w.failed {
            failure()
        } else {
            nothing()
        },
{
    lemma_followed_by_nothing(nothing());
}

/// Printing on prints what was still to print of the directories on the
/// way: the rows handed out, followed by what is still to print afterwards,
/// are what was still to print before.
pub proof fn lemma_advance_prints_rest(dirs: Map<Seq<char>, Seq<EntryView>>, w: WalkerView)
    requires
        w.pending is None,
        !w.failed,
        forall|i: int|
            0 <= i < w.frames.len() ==> (#[trigger] w.frames[i]).depth > 0 && w.frames[i].next
                <= w.frames[i].entries.len(),
    ensures
        w.advance().state.wf(),
        !w.advance().state.failed,
        frames_rest(dirs, w.frames, w.show_hidden) == prepend(
            w.advance().rows,
            remaining(dirs, w.advance().state),
        ),
    decreases w.frames.len(), top_left(w.frames),
{
    let sh = w.show_hidden;
    if w.frames.len() == 0 {
        lemma_followed_by_nothing(nothing());
        assert(prepend(Seq::empty(), nothing()).rows =~= nothing().rows);
    } else {
        let top = w.frames.last();
        let below = w.frames.drop_last();
        let level = w.frames.len();
        let under = frames_rest(dirs, below, sh);
        assert forall|i: int| 0 <= i < below.len() implies (#[trigger] below[i]).depth > 0
            && below[i].next <= below[i].entries.len() by {
            assert(below[i] == w.frames[i]);
        }
        if top.next >= top.entries.len() {
            lemma_advance_prints_rest(dirs, WalkerView { frames: below, ..w });
            lemma_followed_by_nothing(under);
        } else {
            let row = sibling_row(top.entries, top.next as int, top.prefix, level);
            let moved = below.push(FrameView { next: top.next + 1, ..top });
            assert(moved.drop_last() =~= below);
            assert(moved.last() == FrameView { next: top.next + 1, ..top });
            assert forall|i: int| 0 <= i < moved.len() implies (#[trigger] moved[i]).depth > 0
                && moved[i].next <= moved[i].entries.len() by {
                if i < below.len() {
                    assert(moved[i] == w.frames[i]);
                }
            }
            let sub = if row.entry.is_dir {
                render(
                    dirs,
                    row.entry.path,
                    child_prefix(top.prefix, row.is_last),
                    level + 1,
                    (top.depth - 1) as nat,
                    sh,
                )
            } else {
                nothing()
            };
            let siblings = render_from(
                dirs,
                top.entries,
                top.next as int + 1,
                top.prefix,
                level,
                top.depth,
                sh,
            );
            // What was to print: the row, what lies below it, its later
            // siblings, and the directories further out.
            assert(frames_rest(dirs, w.frames, sh) == followed_by(
                followed_by(single(row), followed_by(sub, siblings)),
                under,
            ));
            assert(frames_rest(dirs, moved, sh) == followed_by(siblings, under));
            lemma_followed_by_assoc(single(row), followed_by(sub, siblings), under);
            lemma_followed_by_assoc(sub, siblings, under);
            if row.entry.is_dir && top.depth > 1 {
                let next = w.advance().state;
                assert(next.frames == moved);
                assert(remaining(dirs, next) == followed_by(sub, followed_by(siblings, under)));
                assert(prepend(seq![row], remaining(dirs, next)) == followed_by(
                    single(row),
                    remaining(dirs, next),
                ));
            } else {
                let rest = WalkerView { frames: moved, ..w }.advance();
                lemma_advance_prints_rest(dirs, WalkerView { frames: moved, ..w });
                assert(sub == nothing());
                lemma_followed_by_nothing(followed_by(siblings, under));
                let left = remaining(dirs, rest.state);
                assert(followed_by(siblings, under) == prepend(rest.rows, left));
                lemma_followed_by_assoc(
                    single(row),
                    Rendering { rows: rest.rows, complete: true },
                    left,
                );
                assert(followed_by(single(row), Rendering { rows: rest.rows, complete: true })
                    == Rendering { rows: seq![row] + rest.rows, complete: true });
            }
        }
    }
}

/// The step of a listing. When the directory that the walk waits for is
/// listed as `dirs` says, the rows handed out, followed by what is still to
/// print afterwards, are what was still to print before.
pub proof fn lemma_listing_step(dirs: Map<Seq<char>, Seq<EntryView>>, w: WalkerView)
    requires
        w.wf(),
        w.pending is Some,
        dirs.dom().contains(w.pending->0.path),
    ensures
        w.after_listing(dirs[w.pending->0.path]).state.wf(),
        !w.after_listing(dirs[w.pending->0.path]).state.failed,
        remaining(dirs, w) == prepend(
            w.after_listing(dirs[w.pending->0.path]).rows,
            remaining(dirs, w.after_listing(dirs[w.pending->0.path]).state),
        ),
{
    let request = w.pending->0;
    let frame = FrameView {
        entries: arranged(dirs[request.path], w.show_hidden),
        next: 0,
        prefix: request.prefix,
        depth: request.depth,
    };
    let pushed = WalkerView { frames: w.frames.push(frame), pending: None, ..w };
    assert(pushed.frames.drop_last() =~= w.frames);
    assert(pushed.frames.last() == frame);
    assert forall|i: int| 0 <= i < pushed.frames.len() implies (#[trigger] pushed.frames[i]).depth
        > 0 && pushed.frames[i].next <= pushed.frames[i].entries.len() by {
        if i < w.frames.len() {
            assert(pushed.frames[i] == w.frames[i]);
        }
    }
    lemma_advance_prints_rest(dirs, pushed);
    assert(remaining(dirs, w) == frames_rest(dirs, pushed.frames, w.show_hidden));
}

/// The step of a failure. When the directory that the walk waits for
/// cannot be listed, nothing was left to print but the failure, and the walk
/// is over.
pub proof fn lemma_failure_step(dirs: Map<Seq<char>, Seq<EntryView>>, w: WalkerView)
    requires
        w.wf(),
        w.pending is Some,
        !dirs.dom().contains(w.pending->0.path),
    ensures
        w.after_failure().wf(),
        w.after_failure().finished(),
        w.after_failure().failed,
        remaining(dirs, w) == failure(),
        remaining(dirs, w.after_failure()) == failure(),
{
}

/// However far a walk is driven, the rows handed out so far, followed by
/// what is still to print, are what was to print at the start.
pub proof fn lemma_drive_prints_remaining(
    dirs: Map<Seq<char>, Seq<EntryView>>,
    w: WalkerView,
    steps: nat,
)
    requires
        w.wf(),
    ensures
        drive(dirs, w, steps).state.wf(),
        remaining(dirs, w) == prepend(
            drive(dirs, w, steps).rows,
            remaining(dirs, drive(dirs, w, steps).state),
        ),
    decreases steps,
{
    let left = remaining(dirs, w);
    if steps == 0 || w.pending is None {
        assert(prepend(Seq::empty(), left).rows =~= left.rows);
    } else if dirs.dom().contains(w.pending->0.path) {
        let first = w.after_listing(dirs[w.pending->0.path]);
        let rest = drive(dirs, first.state, (steps - 1) as nat);
        lemma_listing_step(dirs, w);
        lemma_drive_prints_remaining(dirs, first.state, (steps - 1) as nat);
        lemma_followed_by_assoc(
            Rendering { rows: first.rows, complete: true },
            Rendering { rows: rest.rows, complete: true },
            remaining(dirs, rest.state),
        );
    } else {
        lemma_failure_step(dirs, w);
        assert(prepend(Seq::empty(), failure()).rows =~= failure().rows);
    }
}

/// The walker prints the rendering. A walk of `root` that is driven to its
/// end has handed out the rows of the rendering of `root`, in order, and has
/// failed if and only if the rendering is cut short by a directory that
/// cannot be listed.
pub proof fn lemma_walk_prints_rendering(
    dirs: Map<Seq<char>, Seq<EntryView>>,
    root: Seq<char>,
    prefix: Seq<char>,
    depth: nat,
    show_hidden: bool,
    steps: nat,
)
    requires
        drive(dirs, WalkerView::start(root, prefix, depth, show_hidden), steps).state.finished(),
    ensures
        render(dirs, root, prefix, 1, depth, show_hidden) == (Rendering {
            rows: drive(dirs, WalkerView::start(root, prefix, depth, show_hidden), steps).rows,
            complete: !drive(
                dirs,
                WalkerView::start(root, prefix, depth, show_hidden),
                steps,
            ).state.failed,
        }),
{
    let w = WalkerView::start(root, prefix, depth, show_hidden);
    let end = drive(dirs, w, steps);
    lemma_start_remaining(dirs, root, prefix, depth, show_hidden);
    lemma_drive_prints_remaining(dirs, w, steps);
    lemma_finished_remaining(dirs, end.state);
    if end.state.failed {
        assert(end.rows + failure().rows =~= end.rows);
    } else {
        assert(end.rows + nothing().rows =~= end.rows);
    }
}

/// A walk can be repeated. Two walks of the same root over the same
/// directories, each driven to its end, hand out the same rows in the same
/// order, and both fail or neither does.
pub proof fn lemma_walk_repeatable(
    dirs: Map<Seq<char>, Seq<EntryView>>,
    root: Seq<char>,
    prefix: Seq<char>,
    depth: nat,
    show_hidden: bool,
    steps: nat,
    again: nat,
)
    requires
        drive(dirs, WalkerView::start(root, prefix, depth, show_hidden), steps).state.finished(),
        drive(dirs, WalkerView::start(root, prefix, depth, show_hidden), again).state.finished(),
    ensures
        drive(dirs, WalkerView::start(root, prefix, depth, show_hidden), steps).rows == drive(
            dirs,
            WalkerView::start(root, prefix, depth, show_hidden),
            again,
        ).rows,
        drive(dirs, WalkerView::start(root, prefix, depth, show_hidden), steps).state.failed
            == drive(
            dirs,
            WalkerView::start(root, prefix, depth, show_hidden),
            again,
        ).state.failed,
{
    lemma_walk_prints_rendering(dirs, root, prefix, depth, show_hidden, steps);
    lemma_walk_prints_rendering(dirs, root, prefix, depth, show_hidden, again);
}

/// With no level to show, a walk is over before it begins: it waits for no
/// listing, has not failed, and nothing is left to print.
pub proof fn lemma_depth_zero_walk(
    dirs: Map<Seq<char>, Seq<EntryView>>,
    root: Seq<char>,
    prefix: Seq<char>,
    show_hidden: bool,
)
    ensures
        WalkerView::start(root, prefix, 0, show_hidden).finished(),
        !WalkerView::start(root, prefix, 0, show_hidden).failed,
        remaining(dirs, WalkerView::start(root, prefix, 0, show_hidden)) == nothing(),
{
    lemma_start_remaining(dirs, root, prefix, 0, show_hidden);
}

} // verus!
