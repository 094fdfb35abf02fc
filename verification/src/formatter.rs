//! Formatting a whole tree: the markers are generated and the tokens
//! printed in one call.

use vstd::prelude::*;
use crate::formatting::markers_of;
use crate::markers::DEFAULT_INDENT_WIDTH;
use crate::printing::{print, printed};
use crate::syntax::ModelicaCST;

verus! {

impl ModelicaCST {
    /// The formatted text of the tree under an optional maximum line width:
    /// its tokens, printed under its markers at the default indentation.
    pub open spec fn formatted(self, max_width: Option<usize>) -> Seq<char> {
        printed(self.tokens(), markers_of(self), max_width, DEFAULT_INDENT_WIDTH)
    }

    /// Returns the formatted Modelica code of the tree, with no limit on the
    /// length of a line: no soft break is taken.
    pub fn pretty_print(&self) -> (out: String)
        ensures
            out@ == self.formatted(None),
    {
        let markers = crate::formatting::format(self, None);
        print(self, markers)
    }

    /// Returns the formatted Modelica code of the tree, with lines broken
    /// where a group would pass `max_line_length` characters.
    pub fn pretty_print_with_line_length(&self, max_line_length: usize) -> (out: String)
        ensures
            out@ == self.formatted(Some(max_line_length)),
    {
        let markers = crate::formatting::format(self, Some(max_line_length));
        print(self, markers)
    }
}

} // verus!
