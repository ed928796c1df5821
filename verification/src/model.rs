//! What the rendering of a directory is, stated over a mathematical picture
//! of the directories: a map from each path that can be listed to its
//! listing.

use vstd::prelude::*;
use crate::arrange::{arranged, distinct_paths, strictly_ascending};
use crate::entry::{hidden, lemma_visible_is_shown, visible, EntryView};
use crate::text::{child_prefix, line_text};

verus! {

/// One printed line, with what it stands for.
pub struct Row {
    /// How many directory levels below the root the entry lies: 1 for the
    /// root's children.
    pub level: nat,
    /// The indentation in front of the connector.
    pub prefix: Seq<char>,
    /// Whether the entry is the last of its shown siblings.
    pub is_last: bool,
    /// The entry itself.
    pub entry: EntryView,
}

impl Row {
    /// The text of the line.
    pub open spec fn text(self) -> Seq<char> {
        line_text(self.prefix, self.is_last, self.entry.name)
    }
}

/// The texts of rows, one for one.
pub open spec fn texts(rows: Seq<Row>) -> Seq<Seq<char>> {
    rows.map_values(|r: Row| r.text())
}

/// The lines of a walk, and whether it came to its end: a walk is cut short
/// by the first directory that cannot be listed.
pub struct Rendering {
    pub rows: Seq<Row>,
    pub complete: bool,
}

/// A walk that prints nothing and succeeds.
pub open spec fn nothing() -> Rendering {
    Rendering { rows: Seq::empty(), complete: true }
}

/// A walk that fails before it prints anything.
pub open spec fn failure() -> Rendering {
    Rendering { rows: Seq::empty(), complete: false }
}

/// A walk that prints the one row and succeeds.
pub open spec fn single(row: Row) -> Rendering {
    Rendering { rows: seq![row], complete: true }
}

/// First `a`, and `b` after it unless `a` was cut short.
pub open spec fn followed_by(a: Rendering, b: Rendering) -> Rendering {
    if a.complete {
        Rendering { rows: a.rows + b.rows, complete: b.complete }
    } else {
        a
    }
}

/// The row of the entry at index `i` among the arranged siblings `entries`.
pub open spec fn sibling_row(entries: Seq<EntryView>, i: int, prefix: Seq<char>, level: nat) -> Row {
    Row { level, prefix, is_last: i == entries.len() - 1, entry: entries[i] }
}

/// The rendering of the directory `path` with `depth` levels left to show.
/// `dirs` maps each path that can be listed to its listing; `level` is the
/// level of the directory's children.
///
/// Nothing is printed, and nothing listed, once no level is left. A
/// directory that cannot be listed cuts the walk short.
pub open spec fn render(
    dirs: Map<Seq<char>, Seq<EntryView>>,
    path: Seq<char>,
    prefix: Seq<char>,
    level: nat,
    depth: nat,
    show_hidden: bool,
) -> Rendering
    decreases depth, 1nat, 0nat,
{
    if depth == 0 {
        nothing()
    } else if !dirs.dom().contains(path) {
        failure()
    } else {
        render_from(dirs, arranged(dirs[path], show_hidden), 0, prefix, level, depth, show_hidden)
    }
}

/// The rendering of the arranged siblings `entries` from index `from` on:
/// the line of each, followed by the rendering of what lies below it when it
/// is a directory.
pub open spec fn render_from(
    dirs: Map<Seq<char>, Seq<EntryView>>,
    entries: Seq<EntryView>,
    from: int,
    prefix: Seq<char>,
    level: nat,
    depth: nat,
    show_hidden: bool,
) -> Rendering
    decreases depth, 0nat, entries.len() - from,
{
    if depth == 0 || from < 0 || from >= entries.len() {
        nothing()
    } else {
        let row = sibling_row(entries, from, prefix, level);
        let below = if row.entry.is_dir {
            render(
                dirs,
                row.entry.path,
                child_prefix(prefix, row.is_last),
                level + 1,
                (depth - 1) as nat,
                show_hidden,
            )
        } else {
            nothing()
        };
        followed_by(
            single(row),
            followed_by(
                below,
                render_from(dirs, entries, from + 1, prefix, level, depth, show_hidden),
            ),
        )
    }
}

/// `followed_by` is associative.
pub proof fn lemma_followed_by_assoc(a: Rendering, b: Rendering, c: Rendering)
    ensures
        followed_by(followed_by(a, b), c) == followed_by(a, followed_by(b, c)),
{
    if a.complete && b.complete {
        assert((a.rows + b.rows) + c.rows =~= a.rows + (b.rows + c.rows));
    }
}

/// `nothing()` changes nothing, in front or behind.
pub proof fn lemma_followed_by_nothing(a: Rendering)
    ensures
        followed_by(nothing(), a) == a,
        followed_by(a, nothing()) == a,
{
    assert(nothing().rows + a.rows =~= a.rows);
    assert(a.rows + nothing().rows =~= a.rows);
}

/// With no level left to show, nothing is printed and nothing is listed:
/// the rendering is empty whatever the directories hold, and succeeds even
/// where the directory could not be listed.
pub proof fn lemma_depth_zero_prints_nothing(
    dirs: Map<Seq<char>, Seq<EntryView>>,
    path: Seq<char>,
    prefix: Seq<char>,
    level: nat,
    show_hidden: bool,
)
    ensures
        render(dirs, path, prefix, level, 0, show_hidden) == nothing(),
{
}

/// Whether `holds` is true of every row of the rendering.
pub open spec fn every_row(r: Rendering, holds: spec_fn(Row) -> bool) -> bool {
    forall|i: int| 0 <= i < r.rows.len() ==> holds(#[trigger] r.rows[i])
}

/// What holds of every row of two renderings holds of every row of the one
/// followed by the other.
pub proof fn lemma_every_row_followed_by(a: Rendering, b: Rendering, holds: spec_fn(Row) -> bool)
    requires
        every_row(a, holds),
        every_row(b, holds),
    ensures
        every_row(followed_by(a, b), holds),
{
    let c = followed_by(a, b);
    assert forall|i: int| 0 <= i < c.rows.len() implies holds(#[trigger] c.rows[i]) by {
        if a.complete && i >= a.rows.len() {
            assert(c.rows[i] == b.rows[i - a.rows.len()]);
        } else {
            assert(c.rows[i] == a.rows[i]);
        }
    }
}

/// A row lies at a level from `level` on, fewer than `depth` levels further
/// down.
pub open spec fn level_within(level: nat, depth: nat) -> spec_fn(Row) -> bool {
    |r: Row| level <= r.level < level + depth
}

/// The depth bound. A walk with `depth` levels to show prints entries of
/// that many levels and none below: with the root's children at level 1 and
/// `depth = k`, every line stands for an entry at a level from 1 to `k`.
pub proof fn lemma_levels_bounded(
    dirs: Map<Seq<char>, Seq<EntryView>>,
    path: Seq<char>,
    prefix: Seq<char>,
    level: nat,
    depth: nat,
    show_hidden: bool,
)
    ensures
        every_row(
            render(dirs, path, prefix, level, depth, show_hidden),
            level_within(level, depth),
        ),
    decreases depth, 1nat, 0nat,
{
    if depth > 0 && dirs.dom().contains(path) {
        lemma_levels_bounded_from(
            dirs,
            arranged(dirs[path], show_hidden),
            0,
            prefix,
            level,
            depth,
            show_hidden,
        );
    }
}

/// The depth bound, for the siblings from index `from` on.
pub proof fn lemma_levels_bounded_from(
    dirs: Map<Seq<char>, Seq<EntryView>>,
    entries: Seq<EntryView>,
    from: int,
    prefix: Seq<char>,
    level: nat,
    depth: nat,
    show_hidden: bool,
)
    ensures
        every_row(
            render_from(dirs, entries, from, prefix, level, depth, show_hidden),
            level_within(level, depth),
        ),
    decreases depth, 0nat, entries.len() - from,
{
    if !(depth == 0 || from < 0 || from >= entries.len()) {
        let holds = level_within(level, depth);
        let row = sibling_row(entries, from, prefix, level);
        let below = if row.entry.is_dir {
            render(
                dirs,
                row.entry.path,
                child_prefix(prefix, row.is_last),
                level + 1,
                (depth - 1) as nat,
                show_hidden,
            )
        } else {
            nothing()
        };
        let rest = render_from(dirs, entries, from + 1, prefix, level, depth, show_hidden);
        if row.entry.is_dir {
            lemma_levels_bounded(
                dirs,
                row.entry.path,
                child_prefix(prefix, row.is_last),
                level + 1,
                (depth - 1) as nat,
                show_hidden,
            );
            assert(every_row(below, level_within(level + 1, (depth - 1) as nat)));
        }
        assert(every_row(below, holds));
        lemma_levels_bounded_from(dirs, entries, from + 1, prefix, level, depth, show_hidden);
        assert(every_row(single(row), holds));
        lemma_every_row_followed_by(below, rest, holds);
        lemma_every_row_followed_by(single(row), followed_by(below, rest), holds);
    }
}

/// A row stands for an entry whose name does not begin with a dot.
pub open spec fn not_hidden() -> spec_fn(Row) -> bool {
    |r: Row| !hidden(r.entry.name)
}

/// Hidden entries stay out. Unless they are asked for, no line of a walk, at
/// any level, stands for an entry whose name begins with a dot.
pub proof fn lemma_hidden_never_printed(
    dirs: Map<Seq<char>, Seq<EntryView>>,
    path: Seq<char>,
    prefix: Seq<char>,
    level: nat,
    depth: nat,
)
    ensures
        every_row(render(dirs, path, prefix, level, depth, false), not_hidden()),
    decreases depth, 1nat, 0nat,
{
    if depth > 0 && dirs.dom().contains(path) {
        lemma_arranged_not_hidden(dirs[path]);
        lemma_hidden_never_printed_from(
            dirs,
            arranged(dirs[path], false),
            0,
            prefix,
            level,
            depth,
        );
    }
}

/// Unless hidden entries are asked for, no arranged entry has a name that
/// begins with a dot.
pub proof fn lemma_arranged_not_hidden(listing: Seq<EntryView>)
    ensures
        forall|j: int|
            0 <= j < arranged(listing, false).len() ==> !hidden(
                (#[trigger] arranged(listing, false)[j]).name,
            ),
{
    lemma_visible_is_shown(listing, false);
    crate::arrange::lemma_sorted_permutes(visible(listing, false));
    let a = arranged(listing, false);
    let v = visible(listing, false);
    assert forall|j: int| 0 <= j < a.len() implies !hidden((#[trigger] a[j]).name) by {
        assert(a.contains(a[j]));
        assert(v.contains(a[j]));
        let k = choose|k: int| 0 <= k < v.len() && v[k] == a[j];
        assert(!hidden(v[k].name));
    }
}

/// Hidden entries stay out, for the siblings from index `from` on.
pub proof fn lemma_hidden_never_printed_from(
    dirs: Map<Seq<char>, Seq<EntryView>>,
    entries: Seq<EntryView>,
    from: int,
    prefix: Seq<char>,
    level: nat,
    depth: nat,
)
    requires
        forall|j: int| 0 <= j < entries.len() ==> !hidden((#[trigger] entries[j]).name),
    ensures
        every_row(render_from(dirs, entries, from, prefix, level, depth, false), not_hidden()),
    decreases depth, 0nat, entries.len() - from,
{
    if !(depth == 0 || from < 0 || from >= entries.len()) {
        let row = sibling_row(entries, from, prefix, level);
        let below = if row.entry.is_dir {
            render(
                dirs,
                row.entry.path,
                child_prefix(prefix, row.is_last),
                level + 1,
                (depth - 1) as nat,
                false,
            )
        } else {
            nothing()
        };
        let rest = render_from(dirs, entries, from + 1, prefix, level, depth, false);
        if row.entry.is_dir {
            lemma_hidden_never_printed(
                dirs,
                row.entry.path,
                child_prefix(prefix, row.is_last),
                level + 1,
                (depth - 1) as nat,
            );
        }
        lemma_hidden_never_printed_from(dirs, entries, from + 1, prefix, level, depth);
        assert(!hidden(entries[from].name));
        assert(every_row(single(row), not_hidden()));
        lemma_every_row_followed_by(below, rest, not_hidden());
        lemma_every_row_followed_by(single(row), followed_by(below, rest), not_hidden());
    }
}

/// The rows of one level, in the order in which they are printed.
pub open spec fn rows_at(rows: Seq<Row>, level: nat) -> Seq<Row> {
    rows.filter(|r: Row| r.level == level)
}

/// Rows that all lie below a level leave no row of that level.
proof fn lemma_rows_at_deeper(rows: Seq<Row>, level: nat)
    requires
        forall|i: int| 0 <= i < rows.len() ==> (#[trigger] rows[i]).level > level,
    ensures
        rows_at(rows, level) == Seq::<Row>::empty(),
    decreases rows.len(),
{
    reveal(Seq::filter);
    if rows.len() > 0 {
        let front = rows.drop_last();
        assert forall|i: int| 0 <= i < front.len() implies (#[trigger] front[i]).level > level by {
            assert(front[i] == rows[i]);
        }
        lemma_rows_at_deeper(front, level);
        assert(rows.last() == rows[rows.len() - 1]);
    }
}

/// A single row of a level is the rows of that level.
proof fn lemma_rows_at_single(row: Row)
    ensures
        rows_at(seq![row], row.level) == seq![row],
{
    reveal(Seq::filter);
    let first = seq![row];
    assert(first.drop_last() =~= Seq::<Row>::empty());
    assert(first.last() == row);
    assert(rows_at(first.drop_last(), row.level) =~= Seq::<Row>::empty());
    assert(rows_at(first, row.level) =~= first);
}

/// The rows of the siblings' own level, from index `from` on: one row for
/// each sibling in turn, as far as the walk comes.
pub proof fn lemma_sibling_rows_from(
    dirs: Map<Seq<char>, Seq<EntryView>>,
    entries: Seq<EntryView>,
    from: int,
    prefix: Seq<char>,
    level: nat,
    depth: nat,
    show_hidden: bool,
)
    requires
        0 <= from <= entries.len(),
        depth > 0,
    ensures
        ({
            let r = render_from(dirs, entries, from, prefix, level, depth, show_hidden);
            let own = rows_at(r.rows, level);
            &&& own.len() <= entries.len() - from
            &&& r.complete ==> own.len() == entries.len() - from
            &&& forall|i: int|
                0 <= i < own.len() ==> #[trigger] own[i] == sibling_row(
                    entries,
                    from + i,
                    prefix,
                    level,
                )
        }),
    decreases entries.len() - from,
{
    let at_level = |r: Row| r.level == level;
    if from >= entries.len() {
        let r = render_from(dirs, entries, from, prefix, level, depth, show_hidden);
        assert(r.rows =~= Seq::<Row>::empty());
        lemma_rows_at_deeper(r.rows, level);
    } else {
        let row = sibling_row(entries, from, prefix, level);
        let below = if row.entry.is_dir {
            render(
                dirs,
                row.entry.path,
                child_prefix(prefix, row.is_last),
                level + 1,
                (depth - 1) as nat,
                show_hidden,
            )
        } else {
            nothing()
        };
        let rest = render_from(dirs, entries, from + 1, prefix, level, depth, show_hidden);
        let r = render_from(dirs, entries, from, prefix, level, depth, show_hidden);
        if row.entry.is_dir {
            lemma_levels_bounded(
                dirs,
                row.entry.path,
                child_prefix(prefix, row.is_last),
                level + 1,
                (depth - 1) as nat,
                show_hidden,
            );
        }
        assert forall|i: int| 0 <= i < below.rows.len() implies (#[trigger] below.rows[i]).level
            > level by {
            if row.entry.is_dir {
                assert(level_within(level + 1, (depth - 1) as nat)(below.rows[i]));
            }
        }
        lemma_rows_at_deeper(below.rows, level);
        lemma_sibling_rows_from(dirs, entries, from + 1, prefix, level, depth, show_hidden);
        let first = seq![row];
        lemma_rows_at_single(row);
        let later = rows_at(rest.rows, level);
        let own = rows_at(r.rows, level);
        if below.complete {
            assert(r.rows == first + (below.rows + rest.rows));
            Seq::filter_distributes_over_add(first, below.rows + rest.rows, at_level);
            Seq::filter_distributes_over_add(below.rows, rest.rows, at_level);
            assert(own =~= first + later);
            assert forall|i: int| 0 <= i < own.len() implies #[trigger] own[i] == sibling_row(
                entries,
                from + i,
                prefix,
                level,
            ) by {
                if i > 0 {
                    assert(own[i] == later[i - 1]);
                }
            }
        } else {
            assert(r.rows == first + below.rows);
            Seq::filter_distributes_over_add(first, below.rows, at_level);
            assert(own =~= first);
        }
    }
}

/// The order of siblings and their connectors. Of the directory that a walk
/// lists, the lines of its own entries come in the order of the arranged
/// entries, one line each: strictly ascending by the bytes of the full path
/// where no two entries of the listing share a path. Each line has the
/// directory's indentation, and the connector of the last sibling stands on
/// the line of the last arranged entry and on no other. A walk that is not
/// cut short prints every arranged entry.
pub proof fn lemma_siblings_in_order(
    dirs: Map<Seq<char>, Seq<EntryView>>,
    path: Seq<char>,
    prefix: Seq<char>,
    level: nat,
    depth: nat,
    show_hidden: bool,
)
    requires
        depth > 0,
        dirs.dom().contains(path),
    ensures
        ({
            let siblings = arranged(dirs[path], show_hidden);
            let r = render(dirs, path, prefix, level, depth, show_hidden);
            let own = rows_at(r.rows, level);
            &&& distinct_paths(dirs[path]) ==> strictly_ascending(siblings)
            &&& own.len() <= siblings.len()
            &&& r.complete ==> own.len() == siblings.len()
            &&& forall|i: int|
                0 <= i < own.len() ==> {
                    &&& (#[trigger] own[i]).entry == siblings[i]
                    &&& own[i].prefix == prefix
                    &&& own[i].is_last == (i == siblings.len() - 1)
                    &&& own[i].text() == line_text(
                        prefix,
                        i == siblings.len() - 1,
                        siblings[i].name,
                    )
                }
        }),
{
    let siblings = arranged(dirs[path], show_hidden);
    if distinct_paths(dirs[path]) {
        crate::arrange::lemma_visible_keeps_distinct(dirs[path], show_hidden);
        crate::arrange::lemma_sorted_strictly_ascending(visible(dirs[path], show_hidden));
    }
    lemma_sibling_rows_from(dirs, siblings, 0, prefix, level, depth, show_hidden);
}

/// The last level is printed and not opened. With one level left to show,
/// the rendering of a directory is one line for each arranged entry and no
/// more: directories among them are not listed, so that the walk succeeds
/// whatever lies below.
pub proof fn lemma_last_level_not_opened(
    dirs: Map<Seq<char>, Seq<EntryView>>,
    path: Seq<char>,
    prefix: Seq<char>,
    level: nat,
    show_hidden: bool,
)
    requires
        dirs.dom().contains(path),
    ensures
        render(dirs, path, prefix, level, 1, show_hidden) == (Rendering {
            rows: Seq::new(
                arranged(dirs[path], show_hidden).len(),
                |i: int| sibling_row(arranged(dirs[path], show_hidden), i, prefix, level),
            ),
            complete: true,
        }),
{
    let siblings = arranged(dirs[path], show_hidden);
    lemma_last_level_from(dirs, siblings, 0, prefix, level, show_hidden);
    assert(render(dirs, path, prefix, level, 1, show_hidden).rows =~= Seq::new(
        siblings.len(),
        |i: int| sibling_row(siblings, i, prefix, level),
    ));
}

/// With one level left to show, the siblings from index `from` on are
/// rendered as one line each.
proof fn lemma_last_level_from(
    dirs: Map<Seq<char>, Seq<EntryView>>,
    entries: Seq<EntryView>,
    from: int,
    prefix: Seq<char>,
    level: nat,
    show_hidden: bool,
)
    requires
        0 <= from <= entries.len(),
    ensures
        render_from(dirs, entries, from, prefix, level, 1, show_hidden) == (Rendering {
            rows: Seq::new(
                (entries.len() - from) as nat,
                |i: int| sibling_row(entries, from + i, prefix, level),
            ),
            complete: true,
        }),
    decreases entries.len() - from,
{
    let r = render_from(dirs, entries, from, prefix, level, 1, show_hidden);
    let rows = Seq::new(
        (entries.len() - from) as nat,
        |i: int| sibling_row(entries, from + i, prefix, level),
    );
    if from < entries.len() {
        lemma_last_level_from(dirs, entries, from + 1, prefix, level, show_hidden);
        let rest = render_from(dirs, entries, from + 1, prefix, level, 1, show_hidden);
        let row = sibling_row(entries, from, prefix, level);
        lemma_depth_zero_prints_nothing(
            dirs,
            row.entry.path,
            child_prefix(prefix, row.is_last),
            level + 1,
            show_hidden,
        );
        assert(r.rows =~= seq![sibling_row(entries, from, prefix, level)] + (Seq::<Row>::empty()
            + rest.rows));
        assert(r.rows =~= rows);
    } else {
        assert(r.rows =~= rows);
    }
}

} // verus!
