//! The text of one line: indentation, connector and name.

use vstd::prelude::*;
use vstd::string::*;

verus! {

/// The glyph in front of a name: a corner for the last sibling, a tee for
/// every other, each followed by two strokes and one space.
pub open spec fn connector(is_last: bool) -> Seq<char> {
    if is_last {
        seq!['└', '─', '─', ' ']
    } else {
        seq!['├', '─', '─', ' ']
    }
}

/// What an entry adds to the indentation of its descendants: blanks below
/// the last sibling, a bar and blanks below every other, so that the bar
/// runs on to the siblings that follow.
pub open spec fn indent(is_last: bool) -> Seq<char> {
    if is_last {
        seq![' ', ' ', ' ', ' ', ' ', ' ']
    } else {
        seq!['|', ' ', ' ', ' ', ' ', ' ']
    }
}

/// The indentation of the children of an entry that was printed behind
/// `prefix`.
pub open spec fn child_prefix(prefix: Seq<char>, is_last: bool) -> Seq<char> {
    prefix + indent(is_last)
}

/// The line of an entry: indentation, connector, name.
pub open spec fn line_text(prefix: Seq<char>, is_last: bool, name: Seq<char>) -> Seq<char> {
    prefix + connector(is_last) + name
}

/// The connector of an entry, by whether it is the last of its siblings.
pub fn connector_for(is_last: bool) -> (glyph: &'static str)
    ensures
        glyph@ == connector(is_last),
{
    if is_last {
        proof {
            reveal_strlit("└── ");
        }
        assert("└── "@ =~= connector(true));
        "└── "
    } else {
        proof {
            reveal_strlit("├── ");
        }
        assert("├── "@ =~= connector(false));
        "├── "
    }
}

/// What an entry adds to the indentation of its descendants.
pub fn indent_for(is_last: bool) -> (pad: &'static str)
    ensures
        pad@ == indent(is_last),
{
    if is_last {
        proof {
            reveal_strlit("      ");
        }
        assert("      "@ =~= indent(true));
        "      "
    } else {
        proof {
            reveal_strlit("|     ");
        }
        assert("|     "@ =~= indent(false));
        "|     "
    }
}

/// The indentation for the children of an entry printed behind `prefix`.
pub fn extend_prefix(prefix: &str, is_last: bool) -> (longer: String)
    ensures
        longer@ == child_prefix(prefix@, is_last),
{
    let mut longer = prefix.to_owned();
    longer.append(indent_for(is_last));
    longer
}

/// The line of an entry: `prefix`, then the connector, then `name`.
pub fn format_line(prefix: &str, is_last: bool, name: &str) -> (line: String)
    ensures
        line@ == line_text(prefix@, is_last, name@),
{
    let mut line = prefix.to_owned();
    line.append(connector_for(is_last));
    line.append(name);
    line
}

} // verus!
