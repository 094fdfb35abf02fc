//! The marker generator: one walk over the syntax tree that places the
//! layout markers between the tokens.

use vstd::prelude::*;
use crate::balance::{lemma_markers_well_formed, lemma_node_extends};
use crate::markers::{Break, Marker, MarkerStream, Shift, DEFAULT_INDENT_WIDTH};
use crate::rules::{
    does_join, grouped, indented, is_grouped, is_indented, joins, separator, separator_of, Sep,
};
use crate::syntax::{owned, Element, ModelicaCST, SyntaxKind, SyntaxNode, Token};

verus! {

/// How far a walk over the tree has come: the markers placed and the tokens
/// passed so far.
pub struct Walk {
    pub items: Seq<(usize, Marker)>,
    pub tokens: Seq<Token>,
}

/// What a walk remembers while it goes through the children of one node.
pub struct Local {
    /// The children passed last lie in the indented part of the node.
    pub inside: bool,
    /// The kind of the last child that held a token, if there was one.
    pub left: Option<SyntaxKind>,
    /// Exactly one child that held a token has been passed.
    pub lead: bool,
}

impl Walk {
    /// The walk at its start.
    pub open spec fn start() -> Walk {
        Walk { items: Seq::empty(), tokens: Seq::empty() }
    }

    /// The walk after `m` is placed in front of the next token.
    pub open spec fn place(self, m: Marker) -> Walk {
        Walk { items: self.items.push((self.tokens.len() as usize, m)), tokens: self.tokens }
    }

    /// The walk after it has passed the token `t`.
    pub open spec fn pass(self, t: Token) -> Walk {
        Walk { items: self.items, tokens: self.tokens.push(t) }
    }

    /// The walk after `m` is placed, if there is a marker to place.
    pub open spec fn place_if(self, m: Option<Marker>) -> Walk {
        match m {
            Some(m) => self.place(m),
            None => self,
        }
    }
}

/// The line break between two tokens of which `next` starts a line: one
/// empty line of the source is kept.
pub open spec fn line_break(prev: Token, next: Token) -> Marker {
    if prev.blank_before(next) {
        Marker::Break(Break::Blank(1))
    } else {
        Marker::Break(Break::Hard)
    }
}

/// The marker between two adjacent tokens of which one is a comment; none
/// where neither is.
///
/// The token after a comment starts a new line, be it another comment. A
/// comment that starts on the line on which the token before it ends stays
/// on that line, one space away; a comment that does not starts a line of
/// its own.
pub open spec fn comment_marker(prev: Token, next: Token) -> Option<Marker> {
    if prev.kind.is_comment() {
        Some(line_break(prev, next))
    } else if next.kind.is_comment() {
        if prev.same_line(next) {
            Some(Marker::Space(1))
        } else {
            Some(line_break(prev, next))
        }
    } else {
        None
    }
}

/// The marker between the token `prev` and the token `next` that follows
/// it, where the policy asks for `sep` between them. A comment on either
/// side overrides the policy, and two tokens that would not be read as the
/// same two tokens if they touched are kept one space apart.
pub open spec fn boundary_marker(sep: Sep, prev: Token, next: Token) -> Option<Marker> {
    match comment_marker(prev, next) {
        Some(m) => Some(m),
        None => match sep {
            Sep::Glue => if joins(prev.kind, next.kind) {
                None
            } else {
                Some(Marker::Space(1))
            },
            Sep::Space => Some(Marker::Space(1)),
            Sep::Soft => Some(Marker::Break(Break::Soft)),
            Sep::Line => Some(Marker::Break(Break::Hard)),
            Sep::Member => Some(line_break(prev, next)),
        },
    }
}

/// The indentation marker that moves from one part of a node to another.
pub open spec fn shift_to(inside: bool) -> Marker {
    if inside {
        Marker::IndentDelta(Shift::Push)
    } else {
        Marker::IndentDelta(Shift::Pop)
    }
}

/// Whether a child of kind `child` is indented in a node of kind `parent`,
/// given that the children before it were (`inside`). A comment stays where
/// the children around it are.
pub open spec fn child_inside(parent: SyntaxKind, child: SyntaxKind, inside: bool) -> bool {
    if child.is_comment() {
        inside
    } else {
        indented(parent, child)
    }
}

/// The walk after the element `e`.
pub open spec fn after_element(e: Element, w: Walk) -> Walk
    decreases e, 0nat, 0nat,
{
    match e {
        Element::Token(t) => w.pass(t),
        Element::Node(n) => after_node(n, w),
    }
}

/// The walk after the node `n`: a group opens in front of a node that forms
/// one and closes behind it, under the position of its opening marker as
/// identifier, and an indentation that a child opened is closed behind the
/// last child.
pub open spec fn after_node(n: SyntaxNode, w: Walk) -> Walk
    decreases n, 1nat, n.children@.len(),
{
    let id = w.items.len() as usize;
    let opened = if grouped(n.kind) {
        w.place(Marker::Group(id))
    } else {
        w
    };
    let (walked, local) = after_children(n, n.children@.len(), opened);
    let closed = if local.inside {
        walked.place(shift_to(false))
    } else {
        walked
    };
    if grouped(n.kind) {
        closed.place(Marker::Group(id))
    } else {
        closed
    }
}

/// The walk `before` with the marker that parts child `k - 1` of `n` from
/// the token before it: none in front of the first child that holds a
/// token, else the one that [`boundary_marker`] gives for the separator of
/// the policy.
pub open spec fn parted(n: SyntaxNode, k: nat, before: Walk, local: Local) -> Walk
    recommends
        0 < k <= n.children@.len(),
        n.children@[k - 1].leaves().len() > 0,
{
    let child = n.children@[k - 1];
    let first = child.leaves()[0];
    match local.left {
        Some(left) if before.tokens.len() > 0 => before.place_if(
            boundary_marker(
                separator(n.kind, left, child.kind(), first.kind, local.lead),
                before.tokens.last(),
                first,
            ),
        ),
        _ => before,
    }
}

/// The walk `parted` with the change of indentation in front of child
/// `k - 1` of `n`, where that child lies in another part of the node than
/// the child before it.
pub open spec fn shifted(n: SyntaxNode, k: nat, parted: Walk, local: Local) -> Walk
    recommends
        0 < k <= n.children@.len(),
{
    let inside = child_inside(n.kind, n.children@[k - 1].kind(), local.inside);
    if inside != local.inside {
        parted.place(shift_to(inside))
    } else {
        parted
    }
}

/// The walk after the first `k` children of `n`, started inside `n` at `w`.
///
/// A child without tokens is passed over. In front of any other child
/// stands what [`parted`] and [`shifted`] place.
pub open spec fn after_children(n: SyntaxNode, k: nat, w: Walk) -> (Walk, Local)
    decreases n, 0nat, k,
{
    if k == 0 || k > n.children@.len() {
        (w, Local { inside: false, left: None, lead: false })
    } else {
        let (before, local) = after_children(n, (k - 1) as nat, w);
        let child = n.children@[k - 1];
        if child.leaves().len() == 0 {
            (before, local)
        } else {
            (
                after_element(child, shifted(n, k, parted(n, k, before, local), local)),
                Local {
                    inside: child_inside(n.kind, child.kind(), local.inside),
                    left: Some(child.kind()),
                    lead: local.left is None,
                },
            )
        }
    }
}

/// The markers of a tree.
pub open spec fn markers_of(tree: ModelicaCST) -> Seq<(usize, Marker)> {
    after_node(tree.root, Walk::start()).items
}

/// Executable form of [`boundary_marker`].
pub fn boundary(sep: Sep, prev: &Token, next: &Token) -> (m: Option<Marker>)
    ensures
        m == boundary_marker(sep, *prev, *next),
{
    let line = if prev.has_blank_before(next) {
        Marker::Break(Break::Blank(1))
    } else {
        Marker::Break(Break::Hard)
    };
    if prev.kind.comment() {
        Some(line)
    } else if next.kind.comment() {
        if prev.on_same_line(next) {
            Some(Marker::Space(1))
        } else {
            Some(line)
        }
    } else {
        match sep {
            Sep::Glue => if does_join(prev.kind, next.kind) {
                None
            } else {
                Some(Marker::Space(1))
            },
            Sep::Space => Some(Marker::Space(1)),
            Sep::Soft => Some(Marker::Break(Break::Soft)),
            Sep::Line => Some(Marker::Break(Break::Hard)),
            Sep::Member => Some(line),
        }
    }
}

/// The walk that two growing vectors stand for.
pub open spec fn walk_of(items: Seq<(usize, Marker)>, passed: Seq<&Token>) -> Walk {
    Walk { items, tokens: owned(passed) }
}

/// Walks the node `n`, appending its markers to `items` and its tokens to
/// `passed`.
pub fn walk_node<'a>(
    n: &'a SyntaxNode,
    items: &mut Vec<(usize, Marker)>,
    passed: &mut Vec<&'a Token>,
)
    ensures
        walk_of(final(items)@, final(passed)@) == after_node(
            *n,
            walk_of(old(items)@, old(passed)@),
        ),
    decreases n,
{
    let ghost start = walk_of(items@, passed@);
    let id = items.len();
    let group = is_grouped(n.kind);
    if group {
        items.push((passed.len(), Marker::Group(id)));
    }
    let ghost opened = walk_of(items@, passed@);
    assert(opened == if grouped(n.kind) {
        start.place(Marker::Group(id))
    } else {
        start
    });
    let mut inside = false;
    let mut left: Option<SyntaxKind> = None;
    let mut lead = false;
    let mut i: usize = 0;
    while i < n.children.len()
        invariant
            i <= n.children@.len(),
            (walk_of(items@, passed@), Local { inside, left, lead }) == after_children(
                *n,
                i as nat,
                opened,
            ),
        decreases n.children@.len() - i,
    {
        let child = &n.children[i];
        let ghost before = walk_of(items@, passed@);
        match child.first_token() {
            None => {},
            Some(first) => {
                let kind = child.syntax_kind();
                match left {
                    Some(l) => {
                        if passed.len() > 0 {
                            let prev = passed[passed.len() - 1];
                            assert(*prev == before.tokens.last());
                            let sep = separator_of(n.kind, l, kind, first.kind, lead);
                            match boundary(sep, prev, first) {
                                Some(m) => {
                                    items.push((passed.len(), m));
                                },
                                None => {},
                            }
                        }
                    },
                    None => {},
                }
                let want = if kind.comment() {
                    inside
                } else {
                    is_indented(n.kind, kind)
                };
                if want != inside {
                    if want {
                        items.push((passed.len(), Marker::IndentDelta(Shift::Push)));
                    } else {
                        items.push((passed.len(), Marker::IndentDelta(Shift::Pop)));
                    }
                }
                let ghost shifted = walk_of(items@, passed@);
                match child {
                    Element::Token(t) => {
                        passed.push(t);
                        assert(walk_of(items@, passed@).tokens =~= shifted.tokens.push(*t));
                    },
                    Element::Node(c) => {
                        walk_node(c, items, passed);
                    },
                }
                assert(walk_of(items@, passed@) == after_element(*child, shifted));
                lead = left.is_none();
                left = Some(kind);
                inside = want;
            },
        }
        i = i + 1;
    }
    if inside {
        items.push((passed.len(), Marker::IndentDelta(Shift::Pop)));
    }
    if group {
        items.push((passed.len(), Marker::Group(id)));
    }
}

/// Generates the markers of a tree.
///
/// The markers depend on the shape of the tree, the kinds of its nodes and
/// tokens and the lines on which the tokens stand, never on the length of a
/// token. The width is only recorded for the printer: without one the
/// printer takes no soft break.
pub fn format(tree: &ModelicaCST, max_width: Option<usize>) -> (stream: MarkerStream)
    ensures
        stream.items@ == markers_of(*tree),
        stream.max_width == max_width,
        stream.indent_width == DEFAULT_INDENT_WIDTH,
        stream.well_formed(tree.tokens().len()),
{
    let mut items: Vec<(usize, Marker)> = Vec::new();
    let mut passed: Vec<&Token> = Vec::new();
    assert(owned(passed@) =~= Seq::<Token>::empty());
    walk_node(&tree.root, &mut items, &mut passed);
    proof {
        assert(items@.len() == items.len() && passed@.len() == passed.len());
        lemma_node_extends(tree.root, Walk::start());
        assert(owned(passed@) =~= tree.tokens());
        assert(items@ == markers_of(*tree));
        lemma_markers_well_formed(*tree);
    }
    MarkerStream { max_width, indent_width: DEFAULT_INDENT_WIDTH, items }
}

} // verus!
