//! Layout markers: the directives that the marker generator places between
//! tokens and that the printer turns into whitespace.

use vstd::prelude::*;

verus! {

/// One step of indentation.
#[derive(Clone, Copy, Debug, PartialEq, Eq, Structural)]
pub enum Shift {
    /// One level deeper.
    Push,
    /// One level back.
    Pop,
}

/// The kinds of line break.
#[derive(Clone, Copy, Debug, PartialEq, Eq, Structural)]
pub enum Break {
    /// Always a new line.
    Hard,
    /// A new line where it stands directly in a group that does not fit
    /// the maximum width; a single space otherwise.
    Soft,
    /// A new line preceded by empty lines: as many as requested, but never
    /// more than [`MAX_BLANK_LINES`]. A request for none asks for nothing.
    Blank(usize),
}

/// A layout directive. It sits between two adjacent tokens.
#[derive(Clone, Copy, Debug, PartialEq, Eq, Structural)]
pub enum Marker {
    /// Changes the indentation level of the lines that start after it.
    IndentDelta(Shift),
    /// A line break.
    Break(Break),
    /// That many spaces, unless a line break is taken at the same place.
    Space(usize),
    /// One end of a group. A group is closed by the marker that repeats the
    /// identifier of the innermost open group; any other identifier opens a
    /// new group inside it. The soft breaks directly inside one group are
    /// all taken or all left.
    Group(usize),
}

/// The largest number of consecutive empty lines that is ever printed.
pub const MAX_BLANK_LINES: usize = 1;

/// The number of spaces per indentation level unless configured otherwise.
pub const DEFAULT_INDENT_WIDTH: usize = 2;

/// The markers of one tree, in the order of the tokens they precede, with
/// the settings that the printer works under.
///
/// An item `(i, m)` places `m` in front of token `i`; an index equal to the
/// number of tokens places it after the last token.
#[derive(Debug)]
pub struct MarkerStream {
    /// The maximum line width, if lines are limited.
    pub max_width: Option<usize>,
    /// The number of spaces per indentation level.
    pub indent_width: usize,
    pub items: Vec<(usize, Marker)>,
}

/// What one marker adds to the indentation level.
pub open spec fn indent_change(m: Marker) -> int {
    match m {
        Marker::IndentDelta(Shift::Push) => 1,
        Marker::IndentDelta(Shift::Pop) => -1,
        _ => 0,
    }
}

/// The indentation level after all of `items`, counted from level zero.
pub open spec fn indent_level(items: Seq<(usize, Marker)>) -> int
    decreases items.len(),
{
    if items.len() == 0 {
        0
    } else {
        indent_level(items.drop_last()) + indent_change(items.last().1)
    }
}

/// The groups that `stack` turns into when one more marker is read.
pub open spec fn group_step(stack: Seq<usize>, m: Marker) -> Seq<usize> {
    match m {
        Marker::Group(id) => if stack.len() > 0 && stack.last() == id {
            stack.drop_last()
        } else {
            stack.push(id)
        },
        _ => stack,
    }
}

/// The identifiers of the groups that are open after all of `items`,
/// outermost first.
pub open spec fn open_groups(items: Seq<(usize, Marker)>) -> Seq<usize>
    decreases items.len(),
{
    if items.len() == 0 {
        Seq::empty()
    } else {
        group_step(open_groups(items.drop_last()), items.last().1)
    }
}

/// The markers are in token order and none is placed beyond the `n` tokens.
pub open spec fn ordered(items: Seq<(usize, Marker)>, n: nat) -> bool {
    &&& forall|a: int, b: int|
        0 <= a <= b < items.len() ==> (#[trigger] items[a]).0 <= (#[trigger] items[b]).0
    &&& forall|a: int| 0 <= a < items.len() ==> (#[trigger] items[a]).0 <= n
}

/// Every pop of the indentation undoes an earlier push, and every push is
/// undone.
pub open spec fn indent_balanced(items: Seq<(usize, Marker)>) -> bool {
    &&& forall|k: int| 0 <= k <= items.len() ==> indent_level(#[trigger] items.take(k)) >= 0
    &&& indent_level(items) == 0
}

/// Every group that is opened is closed.
pub open spec fn groups_closed(items: Seq<(usize, Marker)>) -> bool {
    open_groups(items).len() == 0
}

/// Markers that the printer accepts for a tree of `n` tokens.
pub open spec fn well_formed(items: Seq<(usize, Marker)>, n: nat) -> bool {
    &&& ordered(items, n)
    &&& indent_balanced(items)
    &&& groups_closed(items)
}

impl MarkerStream {
    /// A stream that the printer accepts for a tree of `n` tokens.
    pub open spec fn well_formed(self, n: nat) -> bool {
        well_formed(self.items@, n)
    }

    /// A stream without markers.
    pub fn new(max_width: Option<usize>, indent_width: usize) -> (s: MarkerStream)
        ensures
            s.max_width == max_width,
            s.indent_width == indent_width,
            s.items@.len() == 0,
    {
        MarkerStream { max_width, indent_width, items: Vec::new() }
    }
}

} // verus!
