//! Proof of where the line that closes a class stands: at the level at
//! which the name of the class stands, which is the level of the keywords
//! in front of the name.

use vstd::prelude::*;
use crate::balance::{
    extends, ids_below, lemma_children_extends, lemma_children_steady, lemma_node_extends,
    lemma_place_extends, lemma_steady_place,
};
use crate::equations::{
    children_come_to, comes_to, inside_of, lemma_children_lead, node_comes_to,
};
use crate::formatting::{
    after_children, after_element, after_node, boundary_marker, child_inside, comment_marker,
    line_break, parted, shift_to, shifted, Local, Walk,
};
use crate::markers::{indent_level, open_groups, Marker};
use crate::rules::{closes, grouped, indented, opens, separator, Sep};
use crate::stability::leads;
use crate::syntax::{Element, SyntaxKind, SyntaxNode, Token};

verus! {

/// A class with a body: child `e` is the keyword that closes it, behind
/// children that hold a token and in front of the name that is repeated;
/// no comment stands in front of the keyword or behind it.
pub open spec fn plain_class(n: SyntaxNode, e: int) -> bool {
    &&& n.kind == SyntaxKind::LongClassSpecifier
    &&& 1 <= e < n.children@.len() - 1
    &&& n.children@[0] matches Element::Token(name) && !name.kind.is_comment()
    &&& n.leaves_upto(e as nat).len() > 0
    &&& !n.leaves_upto(e as nat).last().kind.is_comment()
    &&& forall|j: int|
        0 <= j < e ==> !opens((#[trigger] n.children@[j]).kind()) && n.children@[j].kind()
            != SyntaxKind::Comma
    &&& n.children@[e] matches Element::Token(end) && end.kind == SyntaxKind::EndKw
    &&& n.children@[e + 1] matches Element::Token(again) && again.kind == SyntaxKind::Ident
}

/// The walk in front of the keyword that closes a plain class entered at
/// `w`: behind the line break and the step that ends the indentation of
/// the body.
pub open spec fn at_end(n: SyntaxNode, e: int, w: Walk) -> Walk {
    let (before, local) = after_children(n, e as nat, w);
    shifted(n, (e + 1) as nat, parted(n, (e + 1) as nat, before, local), local)
}

/// What the walk remembers is the kind of a child that it has passed.
pub proof fn lemma_left_is_child(n: SyntaxNode, k: nat, w: Walk)
    requires
        k <= n.children@.len(),
    ensures
        after_children(n, k, w).1.left matches Some(x) ==> exists|j: int|
            0 <= j < k && x == (#[trigger] n.children@[j]).kind(),
    decreases k,
{
    if k > 0 {
        lemma_left_is_child(n, (k - 1) as nat, w);
        let (before, local) = after_children(n, (k - 1) as nat, w);
        if n.children@[k - 1].leaves().len() == 0 {
            if local.left is Some {
                let j = choose|j: int|
                    0 <= j < k - 1 && local.left->Some_0 == (#[trigger] n.children@[j]).kind();
                assert(n.children@[j].kind() == local.left->Some_0);
            }
        } else {
            assert(n.children@[k - 1].kind() == after_children(n, k, w).1.left->Some_0);
        }
    }
}

/// Where the markers of a plain class stand in front of the keyword that
/// closes it: a line break, then the step that ends the indentation of the
/// body, and the walk stands at the level at which it came to the class.
pub proof fn lemma_class_marks(n: SyntaxNode, e: int, w: Walk)
    requires
        plain_class(n, e),
        after_node(n, w).tokens.len() <= usize::MAX,
        after_node(n, w).items.len() <= usize::MAX,
        ids_below(open_groups(w.items), w.items.len()),
    ensures
        ({
            let (before, local) = after_children(n, e as nat, w);
            let t = before.tokens.len();
            let end = n.children@[e]->Token_0;
            let again = n.children@[e + 1]->Token_0;
            let mark = line_break(before.tokens.last(), end);
            &&& t > w.tokens.len()
            &&& at_end(n, e, w).tokens.len() == t
            &&& at_end(n, e, w).items.len() > before.items.len()
            &&& at_end(n, e, w).items[before.items.len() as int] == (t as usize, mark)
            &&& forall|j: int|
                before.items.len() <= j < at_end(n, e, w).items.len() ==> (#[trigger] at_end(
                    n,
                    e,
                    w,
                ).items[j]).0 == t
            &&& indent_level(at_end(n, e, w).items) == indent_level(w.items)
            &&& after_children(n, (e + 1) as nat, w).0 == at_end(n, e, w).pass(end)
            &&& after_children(n, (e + 2) as nat, w).0 == at_end(n, e, w).pass(end).place(
                Marker::Space(1),
            ).pass(again)
            &&& leads(after_children(n, (e + 2) as nat, w).0.items, after_node(n, w).items)
            &&& after_children(n, (e + 2) as nat, w).0.tokens.len() <= after_node(
                n,
                w,
            ).tokens.len()
        }),
{
    reveal(grouped);
    reveal(indented);
    reveal(separator);
    let (before, local) = after_children(n, e as nat, w);
    let end = n.children@[e]->Token_0;
    let again = n.children@[e + 1]->Token_0;
    lemma_children_extends(n, e as nat, w);
    lemma_children_extends(n, n.children@.len(), w);
    lemma_node_extends(n, w);
    lemma_children_lead(n, e as nat, n.children@.len(), w);
    n.lemma_leaves_prefix(e as nat, n.children@.len());
    lemma_left_is_child(n, e as nat, w);
    lemma_children_steady(n, e as nat, w);
    assert(local.left is Some);
    let left = local.left->Some_0;
    let j = choose|j: int| 0 <= j < e && left == (#[trigger] n.children@[j]).kind();
    assert(!opens(n.children@[j].kind()));
    assert(n.children@[e].leaves() =~= seq![end]);
    assert(n.children@[e].kind() == SyntaxKind::EndKw);
    assert(before.tokens.last() == n.leaves_upto(e as nat).last());
    assert(comment_marker(before.tokens.last(), end) is None);
    assert(separator(n.kind, left, SyntaxKind::EndKw, SyntaxKind::EndKw, local.lead)
        == Sep::Member);
    let mark = line_break(before.tokens.last(), end);
    let cut = before.place(mark);
    assert(parted(n, (e + 1) as nat, before, local) == cut);
    lemma_steady_place(before, mark);
    assert(child_inside(n.kind, SyntaxKind::EndKw, local.inside) == false);
    let moved = at_end(n, e, w);
    if local.inside {
        lemma_steady_place(cut, shift_to(false));
        assert(moved == cut.place(shift_to(false)));
    } else {
        assert(moved == cut);
    }
    let k = (e + 1) as nat;
    assert((k - 1) as nat == e as nat);
    assert(n.children@[k - 1] == Element::Token(end));
    assert(n.children@[k - 1].leaves().len() > 0);
    let passed = after_children(n, k, w);
    assert(after_element(n.children@[k - 1], moved) == moved.pass(end));
    assert(passed.0 == moved.pass(end));
    assert(passed.1 == Local { inside: false, left: Some(SyntaxKind::EndKw), lead: false });
    assert(n.children@[e + 1].leaves() =~= seq![again]);
    assert(n.children@[e + 1].kind() == SyntaxKind::Ident);
    assert(passed.0.tokens.last() == end);
    assert(comment_marker(end, again) is None);
    assert(separator(n.kind, SyntaxKind::EndKw, SyntaxKind::Ident, SyntaxKind::Ident, false)
        == Sep::Space);
    assert(parted(n, (e + 2) as nat, passed.0, passed.1) == passed.0.place(Marker::Space(1)));
    assert(child_inside(n.kind, SyntaxKind::Ident, false) == false);
    let k2 = (e + 2) as nat;
    assert((k2 - 1) as nat == k);
    assert(n.children@[k2 - 1] == Element::Token(again));
    assert(n.children@[k2 - 1].leaves().len() > 0);
    let cut2 = passed.0.place(Marker::Space(1));
    assert(parted(n, k2, passed.0, passed.1) == cut2);
    assert(shifted(n, k2, cut2, passed.1) == cut2);
    assert(after_element(n.children@[k2 - 1], cut2) == cut2.pass(again));
    assert(after_children(n, k2, w).0 == cut2.pass(again));
    let two = after_children(n, k2, w).0;
    let (walked, last) = after_children(n, n.children@.len(), w);
    let done = after_node(n, w);
    lemma_children_lead(n, k2, n.children@.len(), w);
    lemma_place_extends(walked, shift_to(false));
    assert(walked.items.take(walked.items.len() as int) =~= walked.items);
    assert(extends(walked, done));
    crate::balance::lemma_extends_trans(two, walked, done);
    crate::stability::lemma_extends_leads(two, done, done.items);
    lemma_children_extends(n, k2, w);
    n.lemma_leaves_prefix(k2, n.children@.len());
    assert(indent_level(moved.items) == indent_level(w.items));
    let t = before.tokens.len();
    assert(moved.tokens.len() == t);
    assert(t <= usize::MAX);
    assert(moved.items[before.items.len() as int] == (t as usize, mark));
    assert forall|j: int| before.items.len() <= j < moved.items.len() implies (
    #[trigger] moved.items[j]).0 == t by {}
}

/// No marker of `items` from place `from` on changes the indentation.
pub open spec fn unshifted(items: Seq<(usize, Marker)>, from: int) -> bool {
    forall|j: int| from <= j < items.len() ==> !((#[trigger] items[j]).1 is IndentDelta)
}

/// A node that holds tokens alone.
pub open spec fn of_tokens(p: SyntaxNode) -> bool {
    forall|j: int| 0 <= j < p.children@.len() ==> (#[trigger] p.children@[j]) is Token
}

/// The children of `m` in front of child `k` are the keywords in front of
/// a class: tokens, or the node of the keywords that name the sort of the
/// class, which holds tokens alone.
pub open spec fn keywords(m: SyntaxNode, k: int) -> bool {
    &&& m.kind == SyntaxKind::ClassDefinition || m.kind == SyntaxKind::ClassPrefixes
    &&& forall|j: int|
        0 <= j < k ==> match #[trigger] m.children@[j] {
            Element::Token(_) => true,
            Element::Node(p) => p.kind == SyntaxKind::ClassPrefixes && of_tokens(p),
        }
}

/// The definition of a class with a body: keywords, of which there is at
/// least one, and behind them the class `n` as the only child of the last
/// child.
pub open spec fn plain_definition(d: SyntaxNode, n: SyntaxNode) -> bool {
    let last = d.children@.len() - 1;
    &&& d.kind == SyntaxKind::ClassDefinition
    &&& last >= 1
    &&& keywords(d, last)
    &&& d.leaves_upto(last as nat).len() > 0
    &&& d.children@[last] matches Element::Node(s) && s.kind == SyntaxKind::ClassSpecifier
        && s.children@.len() == 1 && s.children@[0] == Element::Node(n)
    &&& n.kind == SyntaxKind::LongClassSpecifier
    &&& n.leaves().len() > 0
}

/// The walk in front of the class of a plain definition entered at `w0`:
/// behind the keywords.
pub open spec fn at_class(d: SyntaxNode, w0: Walk) -> Walk {
    let last = (d.children@.len() - 1) as nat;
    let (before, local) = after_children(d, last, w0);
    shifted(d, last + 1, parted(d, last + 1, before, local), local)
}

/// The marker between two tokens does not change the indentation.
pub proof fn lemma_boundary_keeps_level(sep: Sep, prev: Token, next: Token)
    ensures
        boundary_marker(sep, prev, next) matches Some(m) ==> !(m is IndentDelta),
{
}

/// The walk over keywords does not change the indentation.
pub proof fn lemma_keywords_keep_level(m: SyntaxNode, k: nat, w: Walk)
    requires
        k <= m.children@.len(),
        keywords(m, k as int),
    ensures
        !after_children(m, k, w).1.inside,
        leads(w.items, after_children(m, k, w).0.items),
        unshifted(after_children(m, k, w).0.items, w.items.len() as int),
    decreases m, k,
{
    reveal(indented);
    reveal(grouped);
    if k > 0 {
        lemma_keywords_keep_level(m, (k - 1) as nat, w);
        let (before, local) = after_children(m, (k - 1) as nat, w);
        let child = m.children@[k - 1];
        if child.leaves().len() > 0 {
            let cut = parted(m, k, before, local);
            let moved = shifted(m, k, cut, local);
            assert(moved == cut);
            match local.left {
                Some(left) if before.tokens.len() > 0 => {
                    lemma_boundary_keeps_level(
                        separator(m.kind, left, child.kind(), child.leaves()[0].kind, local.lead),
                        before.tokens.last(),
                        child.leaves()[0],
                    );
                },
                _ => {},
            }
            assert(leads(before.items, cut.items));
            assert(unshifted(cut.items, before.items.len() as int));
            match child {
                Element::Token(t) => {},
                Element::Node(p) => {
                    assert(keywords(p, p.children@.len() as int));
                    lemma_keywords_keep_level(p, p.children@.len(), moved);
                    assert(after_node(p, moved) == after_children(p, p.children@.len(), moved).0);
                },
            }
            let done = after_element(child, moved);
            assert(leads(cut.items, done.items));
            assert(unshifted(done.items, cut.items.len() as int));
            assert forall|j: int| w.items.len() <= j < done.items.len() implies !((
            #[trigger] done.items[j]).1 is IndentDelta) by {
                if j < before.items.len() {
                    assert(done.items[j] == before.items[j]);
                } else if j < cut.items.len() {
                    assert(done.items[j] == cut.items[j]);
                }
            }
        }
    }
}

/// The walk over a plain definition comes to its class behind the
/// keywords, which do not change the indentation.
pub proof fn lemma_definition_comes_to_class(d: SyntaxNode, n: SyntaxNode, w0: Walk)
    requires
        plain_definition(d, n),
    ensures
        node_comes_to(d, w0, n, at_class(d, w0)),
        leads(w0.items, at_class(d, w0).items),
        unshifted(at_class(d, w0).items, w0.items.len() as int),
        at_class(d, w0).tokens.len() > w0.tokens.len(),
{
    reveal(indented);
    reveal(grouped);
    let len = d.children@.len();
    let last = (len - 1) as nat;
    let (before, local) = after_children(d, last, w0);
    let child = d.children@[last as int];
    let spec = child->Node_0;
    let cut = parted(d, last + 1, before, local);
    let w = at_class(d, w0);
    lemma_keywords_keep_level(d, last, w0);
    lemma_children_extends(d, last, w0);
    assert(spec.leaves_upto(1) =~= spec.leaves_upto(0) + spec.children@[0].leaves());
    assert(child.leaves().len() > 0);
    match local.left {
        Some(left) if before.tokens.len() > 0 => {
            lemma_boundary_keeps_level(
                separator(d.kind, left, child.kind(), child.leaves()[0].kind, local.lead),
                before.tokens.last(),
                child.leaves()[0],
            );
        },
        _ => {},
    }
    assert(w == cut);
    assert forall|j: int| w0.items.len() <= j < w.items.len() implies !((#[trigger] w.items[j]).1
        is IndentDelta) by {
        if j < before.items.len() {
            assert(w.items[j] == before.items[j]);
        }
    }
    // the walk over the last child comes to the class
    let inner = after_children(spec, 0, w);
    assert(parted(spec, 1, inner.0, inner.1) == w);
    assert(shifted(spec, 1, w, inner.1) == w);
    assert(node_comes_to(n, w, n, w));
    assert(comes_to(spec.children@[0], w, n, w));
    assert(children_come_to(spec, 1, w, n, w));
    assert(inside_of(spec, w) == w);
    assert(node_comes_to(spec, w, n, w));
    assert(comes_to(child, w, n, w));
    assert(inside_of(d, w0) == w0);
    assert((len - 1) as nat == last);
    assert(children_come_to(d, len, w0, n, w));
}

/// A walk that comes to a node comes to the nodes to which the walk over
/// that node comes.
pub proof fn lemma_comes_to_on(e: Element, w0: Walk, d: SyntaxNode, w1: Walk, n: SyntaxNode, w: Walk)
    requires
        comes_to(e, w0, d, w1),
        node_comes_to(d, w1, n, w),
    ensures
        comes_to(e, w0, n, w),
    decreases e, 0nat, 0nat,
{
    match e {
        Element::Token(_) => {},
        Element::Node(m) => {
            lemma_node_comes_to_on(m, w0, d, w1, n, w);
        },
    }
}

/// A walk over a node that comes to a node comes to the nodes to which the
/// walk over that node comes.
pub proof fn lemma_node_comes_to_on(
    m: SyntaxNode,
    w0: Walk,
    d: SyntaxNode,
    w1: Walk,
    n: SyntaxNode,
    w: Walk,
)
    requires
        node_comes_to(m, w0, d, w1),
        node_comes_to(d, w1, n, w),
    ensures
        node_comes_to(m, w0, n, w),
    decreases m, 1nat, m.children@.len(),
{
    if !(m == d && w0 == w1) {
        lemma_children_come_to_on(m, m.children@.len(), inside_of(m, w0), d, w1, n, w);
    }
}

/// A walk over children that comes to a node comes to the nodes to which
/// the walk over that node comes.
pub proof fn lemma_children_come_to_on(
    m: SyntaxNode,
    k: nat,
    w0: Walk,
    d: SyntaxNode,
    w1: Walk,
    n: SyntaxNode,
    w: Walk,
)
    requires
        children_come_to(m, k, w0, d, w1),
        node_comes_to(d, w1, n, w),
    ensures
        children_come_to(m, k, w0, n, w),
    decreases m, 0nat, k,
{
    if k > 0 && k <= m.children@.len() {
        let (before, local) = after_children(m, (k - 1) as nat, w0);
        let child = m.children@[k - 1];
        if children_come_to(m, (k - 1) as nat, w0, d, w1) {
            lemma_children_come_to_on(m, (k - 1) as nat, w0, d, w1, n, w);
        } else {
            lemma_comes_to_on(
                child,
                shifted(m, k, parted(m, k, before, local), local),
                d,
                w1,
                n,
                w,
            );
        }
    }
}

} // verus!
