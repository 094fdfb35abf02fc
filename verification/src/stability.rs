//! Proof that the markers of a tree do not change when its tokens are moved
//! to the lines on which the printer puts them.

use vstd::prelude::*;
use crate::balance::{
    extends, lemma_children_extends, lemma_element_extends, lemma_extends_trans,
    lemma_place_extends,
};
use crate::comments::begins;
use crate::formatting::{
    after_children, after_element, after_node, boundary_marker, comment_marker, line_break, parted,
    shift_to, shifted, Local, Walk,
};
use crate::markers::{Break, Marker};
use crate::rules::{grouped, separator, Sep};
use crate::syntax::{Element, SyntaxNode, Token};

verus! {

/// Two tokens of the same kind and text; the lines may differ.
pub open spec fn alike(a: Token, b: Token) -> bool {
    a.kind == b.kind && a.text@ == b.text@
}

/// Two elements that differ at most in the lines of their tokens.
pub open spec fn aligned(e: Element, o: Element) -> bool
    decreases e, 0nat,
{
    match (e, o) {
        (Element::Token(a), Element::Token(b)) => alike(a, b),
        (Element::Node(n), Element::Node(m)) => aligned_nodes(n, m),
        _ => false,
    }
}

/// Two nodes that differ at most in the lines of their tokens.
pub open spec fn aligned_nodes(n: SyntaxNode, m: SyntaxNode) -> bool
    decreases n, n.children@.len() + 1,
{
    &&& n.kind == m.kind
    &&& n.children@.len() == m.children@.len()
    &&& aligned_upto(n, m, n.children@.len())
}

/// The first `k` children of two nodes differ at most in the lines of their
/// tokens.
pub open spec fn aligned_upto(n: SyntaxNode, m: SyntaxNode, k: nat) -> bool
    decreases n, k,
{
    if k == 0 {
        true
    } else {
        &&& k <= n.children@.len()
        &&& k <= m.children@.len()
        &&& aligned_upto(n, m, (k - 1) as nat)
        &&& aligned(n.children@[k - 1], m.children@[k - 1])
    }
}

/// The token sequences differ at most in the lines.
pub open spec fn all_alike(a: Seq<Token>, b: Seq<Token>) -> bool {
    a.len() == b.len() && forall|i: int| 0 <= i < a.len() ==> alike(#[trigger] a[i], b[i])
}

/// Aligned elements are of the same kind.
pub proof fn lemma_aligned_kind(e: Element, o: Element)
    requires
        aligned(e, o),
    ensures
        e.kind() == o.kind(),
{
    match (e, o) {
        (Element::Node(n), Element::Node(m)) => {
            assert(aligned_nodes(n, m));
        },
        _ => {},
    }
}

/// Aligned elements hold like tokens.
pub proof fn lemma_aligned_leaves(e: Element, o: Element)
    requires
        aligned(e, o),
    ensures
        all_alike(e.leaves(), o.leaves()),
    decreases e, 0nat,
{
    match (e, o) {
        (Element::Node(n), Element::Node(m)) => {
            lemma_aligned_leaves_upto(n, m, n.children@.len());
        },
        _ => {},
    }
}

/// The first `k` children of aligned nodes hold like tokens.
pub proof fn lemma_aligned_leaves_upto(n: SyntaxNode, m: SyntaxNode, k: nat)
    requires
        aligned_upto(n, m, k),
    ensures
        all_alike(n.leaves_upto(k), m.leaves_upto(k)),
    decreases n, k,
{
    if k > 0 {
        lemma_aligned_leaves_upto(n, m, (k - 1) as nat);
        lemma_aligned_leaves(n.children@[k - 1], m.children@[k - 1]);
    }
}

/// A marker that is a plain line break.
pub open spec fn is_line(m: Marker) -> bool {
    m == Marker::Break(Break::Hard) || m == Marker::Break(Break::Blank(1))
}

/// What the proof rests on: the tokens `all` of a tree with the markers
/// `items`, and the tokens `moved` of the tree with other lines.
pub struct Setting {
    pub all: Seq<Token>,
    pub moved: Seq<Token>,
    pub items: Seq<(usize, Marker)>,
}

impl Setting {
    /// The moved tokens are the same tokens; comments demand between them
    /// what they demanded; and where a plain line break stands in the
    /// markers, the lines of the moved tokens ask for that very break.
    #[verifier::opaque]
    pub open spec fn settled(self) -> bool {
        &&& self.all.len() <= usize::MAX
        &&& all_alike(self.all, self.moved)
        &&& forall|t: int|
            1 <= t < self.all.len() ==> comment_marker(self.moved[t - 1], #[trigger] self.moved[t])
                == comment_marker(self.all[t - 1], self.all[t])
        &&& forall|j: int|
            0 <= j < self.items.len() && is_line((#[trigger] self.items[j]).1) && 1
                <= self.items[j].0 < self.all.len() ==> line_break(
                self.moved[self.items[j].0 - 1],
                self.moved[self.items[j].0 as int],
            ) == self.items[j].1
    }
}

/// `a` is the beginning of `b`.
pub open spec fn leads(a: Seq<(usize, Marker)>, b: Seq<(usize, Marker)>) -> bool {
    a.len() <= b.len() && forall|j: int| 0 <= j < a.len() ==> a[j] == b[j]
}

/// Two walks that have placed the same markers and passed as many tokens.
pub open spec fn twins(w: Walk, v: Walk) -> bool {
    w.items == v.items && w.tokens.len() == v.tokens.len()
}

/// The markers of an earlier state begin the markers in which the walk ends.
pub proof fn lemma_extends_leads(w0: Walk, w1: Walk, items: Seq<(usize, Marker)>)
    requires
        extends(w0, w1),
        leads(w1.items, items),
    ensures
        leads(w0.items, items),
        forall|j: int| 0 <= j < w0.items.len() ==> w0.items[j] == w1.items[j],
{
    assert forall|j: int| 0 <= j < w0.items.len() implies w0.items[j] == w1.items[j] by {
        assert(w1.items.take(w0.items.len() as int)[j] == w0.items[j]);
    }
}

/// The tokens of an earlier state begin the tokens in which the walk ends.
pub proof fn lemma_extends_begins(w0: Walk, w1: Walk, grown: Seq<Token>, all: Seq<Token>)
    requires
        w1.tokens =~= w0.tokens + grown,
        begins(w1.tokens, all),
    ensures
        begins(w0.tokens, all),
        forall|i: int| 0 <= i < grown.len() ==> grown[i] == all[w0.tokens.len() + i],
{
    assert forall|i: int| 0 <= i < w0.tokens.len() implies w0.tokens[i] == all[i] by {
        assert(w1.tokens[i] == w0.tokens[i]);
    }
    assert forall|i: int| 0 <= i < grown.len() implies grown[i] == all[w0.tokens.len() + i] by {
        assert(w1.tokens[w0.tokens.len() + i] == grown[i]);
    }
}

/// Between two tokens and between the same two tokens moved, the policy
/// and the comments ask for the same marker. Marker `j` of the markers is
/// the plain line break between the tokens, where the policy asks for one
/// between members.
pub proof fn lemma_same_boundary(s: Setting, t: int, sep: Sep, j: int)
    requires
        s.settled(),
        1 <= t < s.all.len(),
        comment_marker(s.all[t - 1], s.all[t]) is None && sep == Sep::Member ==> 0 <= j
            < s.items.len() && s.items[j] == (t as usize, line_break(s.all[t - 1], s.all[t])),
    ensures
        boundary_marker(sep, s.moved[t - 1], s.moved[t]) == boundary_marker(
            sep,
            s.all[t - 1],
            s.all[t],
        ),
{
    reveal(Setting::settled);
    assert(comment_marker(s.moved[t - 1], s.moved[t]) == comment_marker(s.all[t - 1], s.all[t]));
    if comment_marker(s.all[t - 1], s.all[t]) is None && sep == Sep::Member {
        assert(is_line(s.items[j].1));
        assert(s.items[j].0 == t);
    }
}

/// The moved tokens are of the same kinds.
pub proof fn lemma_settled_alike(s: Setting, t: int)
    requires
        s.settled(),
        0 <= t < s.all.len(),
    ensures
        alike(s.all[t], s.moved[t]),
        s.all.len() == s.moved.len(),
        s.all.len() <= usize::MAX,
{
    reveal(Setting::settled);
}

/// The walks over two aligned elements stay twins.
pub proof fn lemma_element_twins(e: Element, o: Element, w: Walk, v: Walk, s: Setting)
    requires
        aligned(e, o),
        twins(w, v),
        s.settled(),
        begins(after_element(e, w).tokens, s.all),
        begins(after_element(o, v).tokens, s.moved),
        leads(after_element(e, w).items, s.items),
    ensures
        twins(after_element(e, w), after_element(o, v)),
    decreases e, 0nat, 0nat,
{
    match (e, o) {
        (Element::Node(n), Element::Node(m)) => {
            lemma_node_twins(n, m, w, v, s);
        },
        _ => {},
    }
}

/// The walks over two aligned nodes stay twins.
pub proof fn lemma_node_twins(n: SyntaxNode, m: SyntaxNode, w: Walk, v: Walk, s: Setting)
    requires
        aligned_nodes(n, m),
        twins(w, v),
        s.settled(),
        begins(after_node(n, w).tokens, s.all),
        begins(after_node(m, v).tokens, s.moved),
        leads(after_node(n, w).items, s.items),
    ensures
        twins(after_node(n, w), after_node(m, v)),
    decreases n, 1nat, n.children@.len(),
{
    let id = w.items.len() as usize;
    let opened = if grouped(n.kind) {
        w.place(Marker::Group(id))
    } else {
        w
    };
    let other = if grouped(m.kind) {
        v.place(Marker::Group(id))
    } else {
        v
    };
    let (walked, local) = after_children(n, n.children@.len(), opened);
    let closed = if local.inside {
        walked.place(shift_to(false))
    } else {
        walked
    };
    let done = after_node(n, w);
    assert(walked.tokens == done.tokens);
    assert(after_children(m, m.children@.len(), other).0.tokens == after_node(m, v).tokens);
    lemma_place_extends(walked, shift_to(false));
    assert(walked.items.take(walked.items.len() as int) =~= walked.items);
    lemma_place_extends(closed, Marker::Group(id));
    assert(closed.items.take(closed.items.len() as int) =~= closed.items);
    lemma_extends_trans(walked, closed, done);
    lemma_extends_leads(walked, done, s.items);
    lemma_children_twins(n, m, n.children@.len(), opened, other, s);
}

/// Where child `k - 1` of a node holds tokens: how the states of the walk
/// in front of it lie in the tokens `all` and the markers `items` in which
/// the walk over the first `k` children ends.
pub proof fn lemma_child_facts(
    n: SyntaxNode,
    k: nat,
    w: Walk,
    all: Seq<Token>,
    items: Seq<(usize, Marker)>,
)
    requires
        0 < k <= n.children@.len(),
        n.children@[k - 1].leaves().len() > 0,
        begins(after_children(n, k, w).0.tokens, all),
        leads(after_children(n, k, w).0.items, items),
    ensures
        ({
            let (before, local) = after_children(n, (k - 1) as nat, w);
            let child = n.children@[k - 1];
            let cut = parted(n, k, before, local);
            let moved = shifted(n, k, cut, local);
            let t = before.tokens.len() as int;
            &&& t < all.len()
            &&& child.leaves()[0] == all[t]
            &&& t > 0 ==> before.tokens.last() == all[t - 1]
            &&& begins(before.tokens, all)
            &&& leads(before.items, items)
            &&& begins(after_element(child, moved).tokens, all)
            &&& leads(after_element(child, moved).items, items)
            &&& after_children(n, k, w).0 == after_element(child, moved)
            &&& cut != before ==> before.items.len() < items.len() && cut.items
                == before.items.push(items[before.items.len() as int])
        }),
{
    let (before, local) = after_children(n, (k - 1) as nat, w);
    let child = n.children@[k - 1];
    let cut = parted(n, k, before, local);
    let moved = shifted(n, k, cut, local);
    let done = after_element(child, moved);
    lemma_children_extends(n, (k - 1) as nat, w);
    lemma_children_extends(n, k, w);
    lemma_element_extends(child, moved);
    assert(n.leaves_upto(k) == n.leaves_upto((k - 1) as nat) + child.leaves());
    assert(done.tokens =~= before.tokens + child.leaves());
    lemma_extends_begins(before, done, child.leaves(), all);
    assert(extends(before, cut)) by {
        assert(before.items.take(before.items.len() as int) =~= before.items);
        if cut != before {
            assert(cut.items.take(before.items.len() as int) =~= before.items);
        }
    }
    assert(extends(cut, moved)) by {
        assert(cut.items.take(cut.items.len() as int) =~= cut.items);
        if moved != cut {
            assert(moved.items.take(cut.items.len() as int) =~= cut.items);
        }
    }
    lemma_extends_trans(before, cut, moved);
    lemma_extends_trans(before, moved, done);
    lemma_extends_trans(cut, moved, done);
    lemma_extends_leads(before, done, items);
    lemma_extends_leads(cut, done, items);
    if cut != before {
        assert(cut.items =~= before.items.push(items[before.items.len() as int]));
    }
}

/// The walks over the first `k` children of two aligned nodes stay twins,
/// and remember the same.
pub proof fn lemma_children_twins(
    n: SyntaxNode,
    m: SyntaxNode,
    k: nat,
    w: Walk,
    v: Walk,
    s: Setting,
)
    requires
        n.kind == m.kind,
        aligned_upto(n, m, k),
        k <= n.children@.len(),
        k <= m.children@.len(),
        twins(w, v),
        s.settled(),
        begins(after_children(n, k, w).0.tokens, s.all),
        begins(after_children(m, k, v).0.tokens, s.moved),
        leads(after_children(n, k, w).0.items, s.items),
    ensures
        twins(after_children(n, k, w).0, after_children(m, k, v).0),
        after_children(n, k, w).1 == after_children(m, k, v).1,
    decreases n, 0nat, k,
{
    if k > 0 {
        let (before, local) = after_children(n, (k - 1) as nat, w);
        let (before2, local2) = after_children(m, (k - 1) as nat, v);
        let child = n.children@[k - 1];
        let child2 = m.children@[k - 1];
        lemma_aligned_leaves(child, child2);
        if child.leaves().len() == 0 {
            lemma_children_twins(n, m, (k - 1) as nat, w, v, s);
        } else {
            let cut = parted(n, k, before, local);
            let cut2 = parted(m, k, before2, local2);
            let moved = shifted(n, k, cut, local);
            let moved2 = shifted(m, k, cut2, local2);
            let t = before.tokens.len() as int;
            lemma_child_facts(n, k, w, s.all, s.items);
            lemma_child_facts(m, k, v, s.moved, after_children(m, k, v).0.items);
            lemma_children_twins(n, m, (k - 1) as nat, w, v, s);
            lemma_settled_alike(s, t);
            lemma_aligned_kind(child, child2);
            assert(twins(cut, cut2)) by {
                lemma_cut_twins(n, m, k, before, before2, local, s);
            }
            assert(twins(moved, moved2));
            lemma_element_twins(child, child2, moved, moved2, s);
        }
    }
}

/// The marker in front of a child is the same in both walks.
pub proof fn lemma_cut_twins(
    n: SyntaxNode,
    m: SyntaxNode,
    k: nat,
    before: Walk,
    before2: Walk,
    local: Local,
    s: Setting,
)
    requires
        n.kind == m.kind,
        0 < k <= n.children@.len(),
        k <= m.children@.len(),
        n.children@[k - 1].leaves().len() > 0,
        m.children@[k - 1].leaves().len() > 0,
        n.children@[k - 1].kind() == m.children@[k - 1].kind(),
        twins(before, before2),
        s.settled(),
        before.tokens.len() < s.all.len(),
        n.children@[k - 1].leaves()[0] == s.all[before.tokens.len() as int],
        m.children@[k - 1].leaves()[0] == s.moved[before.tokens.len() as int],
        before.tokens.len() > 0 ==> before.tokens.last() == s.all[before.tokens.len() - 1]
            && before2.tokens.last() == s.moved[before.tokens.len() - 1],
        parted(n, k, before, local) != before ==> before.items.len() < s.items.len() && parted(
            n,
            k,
            before,
            local,
        ).items == before.items.push(s.items[before.items.len() as int]),
    ensures
        twins(parted(n, k, before, local), parted(m, k, before2, local)),
{
    let t = before.tokens.len() as int;
    let child = n.children@[k - 1];
    let first = child.leaves()[0];
    lemma_settled_alike(s, t);
    match local.left {
        Some(left) if before.tokens.len() > 0 => {
            let prev = before.tokens.last();
            let sep = separator(n.kind, left, child.kind(), first.kind, local.lead);
            let j = before.items.len() as int;
            if comment_marker(prev, first) is None && sep == Sep::Member {
                assert(parted(n, k, before, local).items[j] == (
                    t as usize,
                    line_break(prev, first),
                ));
            }
            lemma_same_boundary(s, t, sep, j);
        },
        _ => {},
    }
}

} // verus!
