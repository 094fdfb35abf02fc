//! Proof about the marker generator: between two tokens of which one is a
//! comment stands the marker that the comment demands, and no other marker
//! asks for whitespace there.

use vstd::prelude::*;
use crate::attachment::spacing;
use crate::balance::{
    extends, lemma_children_extends, lemma_element_extends, lemma_extends_trans,
    lemma_place_extends,
};
use crate::formatting::{
    after_children, after_element, after_node, boundary_marker, child_inside, comment_marker,
    parted, shift_to, shifted, Walk,
};
use crate::markers::Marker;
use crate::markers::Break;
use crate::rules::{grouped, joins, separator};
use crate::syntax::{Element, SyntaxNode, Token};

verus! {

/// `a` is the beginning of `b`.
pub open spec fn begins(a: Seq<Token>, b: Seq<Token>) -> bool {
    a.len() <= b.len() && forall|i: int| 0 <= i < a.len() ==> a[i] == b[i]
}

/// Among the markers from `lo` up to `hi`, one in front of token `t` asks
/// for whitespace.
pub open spec fn spaced_between(items: Seq<(usize, Marker)>, t: int, lo: int, hi: int) -> bool {
    exists|j: int|
        lo <= j < hi && 0 <= j < items.len() && (#[trigger] items[j]).0 == t && spacing(items[j].1)
}

/// The marker asks for at least one space: it is a single space, a soft
/// break, a hard break or a break with one empty line.
pub open spec fn wide(m: Marker) -> bool {
    m == Marker::Space(1) || m == Marker::Break(Break::Soft) || m == Marker::Break(Break::Hard)
        || m == Marker::Break(Break::Blank(1))
}

/// Between the two tokens something has to stand: one of them is a comment,
/// or they would not be read as the same two tokens if they touched.
pub open spec fn parts(prev: Token, next: Token) -> bool {
    comment_marker(prev, next) is Some || !joins(prev.kind, next.kind)
}

/// Marker `j` of `items`, if it asks for whitespace, stands between two
/// tokens of `all`, not in front of the first `from` tokens, asks for at
/// least one space, and is the marker that a comment on either side
/// demands.
pub open spec fn obeys(items: Seq<(usize, Marker)>, j: int, from: nat, all: Seq<Token>) -> bool {
    spacing(items[j].1) ==> {
        let t = items[j].0 as int;
        &&& from <= t
        &&& 1 <= t < all.len()
        &&& comment_marker(all[t - 1], all[t]) matches Some(m) ==> items[j].1 == m
        &&& wide(items[j].1)
    }
}

/// Between the states `w0` and `w1` of a walk over tokens of `all`, every
/// marker placed that asks for whitespace obeys the comments, and a marker
/// that asks for whitespace stands in front of every token passed but the
/// first, where something has to stand between it and the token before it.
pub open spec fn observed(w0: Walk, w1: Walk, all: Seq<Token>) -> bool {
    &&& forall|j: int|
        w0.items.len() <= j < w1.items.len() ==> #[trigger] obeys(w1.items, j, w0.tokens.len(), all)
    &&& forall|t: int|
        w0.tokens.len() < t < w1.tokens.len() && 1 <= t < all.len() && parts(
            all[t - 1],
            all[t],
        ) ==> #[trigger] spaced_between(
            w1.items,
            t,
            w0.items.len() as int,
            w1.items.len() as int,
        )
}

/// A walk that has not moved has observed the comments.
pub proof fn lemma_observed_refl(w: Walk, all: Seq<Token>)
    ensures
        observed(w, w, all),
{
}

/// Two stretches of a walk that are observed one after the other are
/// observed together, where the boundary at which they meet is seen to.
pub proof fn lemma_observed_trans(w0: Walk, w1: Walk, w2: Walk, all: Seq<Token>)
    requires
        extends(w0, w1),
        extends(w1, w2),
        observed(w0, w1, all),
        observed(w1, w2, all),
        w0.tokens.len() < w1.tokens.len() < w2.tokens.len() && 1 <= w1.tokens.len() < all.len()
            && parts(
            all[w1.tokens.len() - 1],
            all[w1.tokens.len() as int],
        ) ==> spaced_between(
            w2.items,
            w1.tokens.len() as int,
            w0.items.len() as int,
            w2.items.len() as int,
        ),
    ensures
        observed(w0, w2, all),
{
    assert(w2.items.take(w1.items.len() as int) =~= w1.items);
    assert forall|j: int| 0 <= j < w1.items.len() implies w2.items[j] == w1.items[j] by {
        assert(w2.items.take(w1.items.len() as int)[j] == w1.items[j]);
    }
    assert forall|j: int| w0.items.len() <= j < w2.items.len() implies #[trigger] obeys(
        w2.items,
        j,
        w0.tokens.len(),
        all,
    ) by {
        if j < w1.items.len() {
            assert(obeys(w1.items, j, w0.tokens.len(), all));
        } else {
            assert(obeys(w2.items, j, w1.tokens.len(), all));
        }
    }
    assert forall|t: int|
        w0.tokens.len() < t < w2.tokens.len() && 1 <= t < all.len() && parts(
            all[t - 1],
            all[t],
        ) implies #[trigger] spaced_between(
        w2.items,
        t,
        w0.items.len() as int,
        w2.items.len() as int,
    ) by {
        if t < w1.tokens.len() {
            assert(spaced_between(w1.items, t, w0.items.len() as int, w1.items.len() as int));
            let j = choose|j: int|
                w0.items.len() <= j < w1.items.len() && 0 <= j < w1.items.len() && (
                #[trigger] w1.items[j]).0 == t && spacing(w1.items[j].1);
            assert(w2.items[j] == w1.items[j]);
        } else if t > w1.tokens.len() {
            assert(spaced_between(w2.items, t, w1.items.len() as int, w2.items.len() as int));
            let j = choose|j: int|
                w1.items.len() <= j < w2.items.len() && 0 <= j < w2.items.len() && (
                #[trigger] w2.items[j]).0 == t && spacing(w2.items[j].1);
            assert(w0.items.len() <= j);
        }
    }
}

/// Placing a marker that asks for no whitespace needs no attention.
pub proof fn lemma_observed_place(w: Walk, m: Marker, all: Seq<Token>)
    requires
        !spacing(m),
    ensures
        observed(w, w.place(m), all),
        extends(w, w.place(m)),
{
    lemma_place_extends(w, m);
}

/// The walk over an element observes the comments.
pub proof fn lemma_element_observed(e: Element, w: Walk, all: Seq<Token>)
    requires
        begins(after_element(e, w).tokens, all),
        all.len() <= usize::MAX,
    ensures
        observed(w, after_element(e, w), all),
    decreases e, 0nat, 0nat,
{
    match e {
        Element::Token(t) => {},
        Element::Node(n) => {
            lemma_node_observed(n, w, all);
        },
    }
}

/// The walk over a node observes the comments.
pub proof fn lemma_node_observed(n: SyntaxNode, w: Walk, all: Seq<Token>)
    requires
        begins(after_node(n, w).tokens, all),
        all.len() <= usize::MAX,
    ensures
        observed(w, after_node(n, w), all),
    decreases n, 1nat, n.children@.len(),
{
    let id = w.items.len() as usize;
    let opened = if grouped(n.kind) {
        w.place(Marker::Group(id))
    } else {
        w
    };
    let (walked, local) = after_children(n, n.children@.len(), opened);
    let closed = if local.inside {
        walked.place(shift_to(false))
    } else {
        walked
    };
    let done = after_node(n, w);
    lemma_observed_place(w, Marker::Group(id), all);
    lemma_observed_refl(w, all);
    assert(w.items.take(w.items.len() as int) =~= w.items);
    assert(observed(w, opened, all) && extends(w, opened));
    lemma_children_extends(n, n.children@.len(), opened);
    lemma_observed_place(walked, shift_to(false), all);
    lemma_observed_refl(walked, all);
    assert(walked.items.take(walked.items.len() as int) =~= walked.items);
    assert(observed(walked, closed, all) && extends(walked, closed));
    lemma_observed_place(closed, Marker::Group(id), all);
    lemma_observed_refl(closed, all);
    assert(closed.items.take(closed.items.len() as int) =~= closed.items);
    assert(observed(closed, done, all) && extends(closed, done));
    assert(walked.tokens == done.tokens);
    lemma_children_observed(n, n.children@.len(), opened, all);
    lemma_observed_trans(w, opened, walked, all);
    lemma_extends_trans(w, opened, walked);
    lemma_observed_trans(w, walked, closed, all);
    lemma_extends_trans(w, walked, closed);
    lemma_observed_trans(w, closed, done, all);
}

/// The walk over the first `k` children of a node observes the comments.
pub proof fn lemma_children_observed(n: SyntaxNode, k: nat, w: Walk, all: Seq<Token>)
    requires
        k <= n.children@.len(),
        begins(after_children(n, k, w).0.tokens, all),
        all.len() <= usize::MAX,
    ensures
        observed(w, after_children(n, k, w).0, all),
    decreases n, 0nat, k,
{
    if k > 0 {
        let (before, local) = after_children(n, (k - 1) as nat, w);
        let child = n.children@[k - 1];
        lemma_children_extends(n, (k - 1) as nat, w);
        lemma_children_extends(n, k, w);
        if child.leaves().len() == 0 {
            lemma_children_observed(n, (k - 1) as nat, w, all);
        } else {
            let first = child.leaves()[0];
            let cut = parted(n, k, before, local);
            let moved = shifted(n, k, cut, local);
            let inside = child_inside(n.kind, child.kind(), local.inside);
            let done = after_element(child, moved);
            let t = before.tokens.len();
            lemma_element_extends(child, moved);
            assert(done.tokens =~= before.tokens + child.leaves());
            assert(all[t as int] == first) by {
                assert(done.tokens[t as int] == child.leaves()[0]);
            }
            assert(begins(before.tokens, all)) by {
                assert forall|i: int| 0 <= i < before.tokens.len() implies before.tokens[i]
                    == all[i] by {
                    assert(done.tokens[i] == before.tokens[i]);
                }
            }
            lemma_children_observed(n, (k - 1) as nat, w, all);
            // the marker at the boundary
            assert(observed(before, cut, all) && extends(before, cut)) by {
                assert(before.items.take(before.items.len() as int) =~= before.items);
                if cut != before {
                    let m = boundary_marker(
                        separator(n.kind, local.left.unwrap(), child.kind(), first.kind, local.lead),
                        before.tokens.last(),
                        first,
                    ).unwrap();
                    lemma_place_extends(before, m);
                    assert(cut.items.len() == before.items.len() + 1);
                    assert(cut.items[before.items.len() as int] == (t as usize, m));
                    assert(all[t - 1] == before.tokens.last());
                    assert(obeys(cut.items, before.items.len() as int, t, all));
                }
            }
            assert(observed(cut, moved, all) && extends(cut, moved)) by {
                assert(cut.items.take(cut.items.len() as int) =~= cut.items);
                if moved != cut {
                    lemma_observed_place(cut, shift_to(inside), all);
                }
            }
            lemma_element_observed(child, moved, all);
            lemma_observed_trans(before, cut, moved, all);
            lemma_extends_trans(before, cut, moved);
            lemma_observed_trans(before, moved, done, all);
            lemma_extends_trans(before, moved, done);
            // the boundary between the children before and this child
            if w.tokens.len() < t && parts(all[t - 1], all[t as int]) {
                assert(local.left is Some);
                assert(cut != before);
                assert(done.items.take(cut.items.len() as int) =~= cut.items) by {
                    lemma_extends_trans(cut, moved, done);
                }
                assert(done.items[before.items.len() as int] == cut.items[before.items.len() as int]) by {
                    assert(done.items.take(cut.items.len() as int)[before.items.len() as int]
                        == cut.items[before.items.len() as int]);
                }
                assert(spaced_between(
                    done.items,
                    t as int,
                    w.items.len() as int,
                    done.items.len() as int,
                ));
            }
            lemma_observed_trans(w, before, done, all);
        }
    }
}

/// Between the states `w0` and `w1` of a walk, every marker placed that asks
/// for whitespace stands in front of a token passed in between, but not the
/// first of them, and no two such markers stand in front of the same token.
pub open spec fn apart(w0: Walk, w1: Walk) -> bool {
    &&& forall|j: int|
        w0.items.len() <= j < w1.items.len() && spacing((#[trigger] w1.items[j]).1)
            ==> w0.tokens.len() < w1.items[j].0 < w1.tokens.len()
    &&& forall|a: int, b: int|
        w0.items.len() <= a < b < w1.items.len() && spacing((#[trigger] w1.items[a]).1)
            && spacing((#[trigger] w1.items[b]).1) ==> w1.items[a].0 < w1.items[b].0
}

/// A stretch of a walk in which no marker that asks for whitespace is
/// placed and no token is passed changes nothing in this.
pub proof fn lemma_apart_quiet(w0: Walk, w1: Walk, w2: Walk)
    requires
        extends(w0, w1),
        extends(w1, w2),
        apart(w0, w1) || (w1.tokens.len() == w0.tokens.len() && forall|j: int|
            w0.items.len() <= j < w1.items.len() ==> !spacing((#[trigger] w1.items[j]).1)),
        w2.tokens.len() == w1.tokens.len(),
        forall|j: int| w1.items.len() <= j < w2.items.len() ==> !spacing((#[trigger] w2.items[j]).1),
    ensures
        apart(w0, w2) || (w2.tokens.len() == w0.tokens.len() && forall|j: int|
            w0.items.len() <= j < w2.items.len() ==> !spacing((#[trigger] w2.items[j]).1)),
        apart(w0, w1) ==> apart(w0, w2),
{
    assert(w2.items.take(w1.items.len() as int) =~= w1.items);
    assert forall|j: int| 0 <= j < w1.items.len() implies w2.items[j] == w1.items[j] by {
        assert(w2.items.take(w1.items.len() as int)[j] == w1.items[j]);
    }
}

/// The walk over an element keeps the markers that ask for whitespace
/// apart.
pub proof fn lemma_element_apart(e: Element, w: Walk)
    requires
        after_element(e, w).tokens.len() <= usize::MAX,
    ensures
        apart(w, after_element(e, w)),
    decreases e, 0nat, 0nat,
{
    match e {
        Element::Token(t) => {},
        Element::Node(n) => {
            lemma_node_apart(n, w);
        },
    }
}

/// The walk over a node keeps the markers that ask for whitespace apart.
pub proof fn lemma_node_apart(n: SyntaxNode, w: Walk)
    requires
        after_node(n, w).tokens.len() <= usize::MAX,
    ensures
        apart(w, after_node(n, w)),
    decreases n, 1nat, n.children@.len(),
{
    let id = w.items.len() as usize;
    let opened = if grouped(n.kind) {
        w.place(Marker::Group(id))
    } else {
        w
    };
    let (walked, local) = after_children(n, n.children@.len(), opened);
    let closed = if local.inside {
        walked.place(shift_to(false))
    } else {
        walked
    };
    let done = after_node(n, w);
    lemma_place_extends(w, Marker::Group(id));
    assert(w.items.take(w.items.len() as int) =~= w.items);
    lemma_children_extends(n, n.children@.len(), opened);
    lemma_place_extends(walked, shift_to(false));
    assert(walked.items.take(walked.items.len() as int) =~= walked.items);
    lemma_place_extends(closed, Marker::Group(id));
    assert(closed.items.take(closed.items.len() as int) =~= closed.items);
    lemma_children_apart(n, n.children@.len(), opened);
    // in front of the children
    assert(apart(w, walked)) by {
        assert(walked.items.take(opened.items.len() as int) =~= opened.items);
        assert forall|j: int| w.items.len() <= j < walked.items.len() && spacing(
            (#[trigger] walked.items[j]).1,
        ) implies opened.items.len() <= j by {
            if j < opened.items.len() {
                assert(walked.items.take(opened.items.len() as int)[j] == opened.items[j]);
            }
        }
    }
    lemma_extends_trans(w, opened, walked);
    // behind the children
    lemma_apart_quiet(w, walked, closed);
    lemma_extends_trans(w, walked, closed);
    lemma_apart_quiet(w, closed, done);
}

/// The walk over the first `k` children of a node keeps the markers that
/// ask for whitespace apart.
pub proof fn lemma_children_apart(n: SyntaxNode, k: nat, w: Walk)
    requires
        k <= n.children@.len(),
        after_children(n, k, w).0.tokens.len() <= usize::MAX,
    ensures
        apart(w, after_children(n, k, w).0),
    decreases n, 0nat, k,
{
    if k > 0 {
        let (before, local) = after_children(n, (k - 1) as nat, w);
        let child = n.children@[k - 1];
        lemma_children_extends(n, (k - 1) as nat, w);
        lemma_children_extends(n, k, w);
        if child.leaves().len() == 0 {
            lemma_children_apart(n, (k - 1) as nat, w);
        } else {
            let first = child.leaves()[0];
            let cut = parted(n, k, before, local);
            let moved = shifted(n, k, cut, local);
            let inside = child_inside(n.kind, child.kind(), local.inside);
            let done = after_element(child, moved);
            let t = before.tokens.len();
            lemma_element_extends(child, moved);
            assert(done.tokens =~= before.tokens + child.leaves());
            lemma_children_apart(n, (k - 1) as nat, w);
            lemma_element_apart(child, moved);
            assert(extends(before, cut)) by {
                assert(before.items.take(before.items.len() as int) =~= before.items);
                if cut != before {
                    assert(cut.items.take(before.items.len() as int) =~= before.items);
                }
            }
            assert(extends(cut, moved)) by {
                assert(cut.items.take(cut.items.len() as int) =~= cut.items);
                if moved != cut {
                    assert(moved.items.take(cut.items.len() as int) =~= cut.items);
                }
            }
            lemma_extends_trans(before, cut, moved);
            lemma_extends_trans(before, moved, done);
            lemma_extends_trans(w, before, done);
            assert(done.items.take(moved.items.len() as int) =~= moved.items);
            assert(done.items.take(before.items.len() as int) =~= before.items);
            assert forall|j: int| 0 <= j < moved.items.len() implies done.items[j]
                == moved.items[j] by {
                assert(done.items.take(moved.items.len() as int)[j] == moved.items[j]);
            }
            assert forall|j: int| 0 <= j < before.items.len() implies moved.items[j]
                == before.items[j] by {
                assert(moved.items.take(before.items.len() as int)[j] == before.items[j]);
            }
            // what stands between the children before and this child
            assert forall|j: int|
                before.items.len() <= j < moved.items.len() && spacing(
                    (#[trigger] moved.items[j]).1,
                ) implies j == before.items.len() && moved.items[j].0 == t && w.tokens.len() < t by {
                assert(cut.items.take(before.items.len() as int) =~= before.items);
                if j < cut.items.len() {
                    assert(moved.items.take(cut.items.len() as int)[j] == cut.items[j]);
                    assert(cut != before);
                    assert(local.left is Some);
                }
            }
            assert(apart(w, done)) by {
                assert forall|j: int|
                    w.items.len() <= j < done.items.len() && spacing(
                        (#[trigger] done.items[j]).1,
                    ) implies w.tokens.len() < done.items[j].0 < done.tokens.len() by {
                    if j < before.items.len() {
                        assert(spacing(before.items[j].1));
                    } else if j < moved.items.len() {
                        assert(spacing(moved.items[j].1));
                    }
                }
                assert forall|a: int, b: int|
                    w.items.len() <= a < b < done.items.len() && spacing(
                        (#[trigger] done.items[a]).1,
                    ) && spacing((#[trigger] done.items[b]).1) implies done.items[a].0
                    < done.items[b].0 by {
                    if a < before.items.len() {
                        assert(spacing(before.items[a].1));
                        if b < before.items.len() {
                            assert(spacing(before.items[b].1));
                        } else if b < moved.items.len() {
                            assert(spacing(moved.items[b].1));
                        }
                    } else if a < moved.items.len() {
                        assert(spacing(moved.items[a].1));
                        if b < moved.items.len() {
                            assert(spacing(moved.items[b].1));
                        }
                    }
                }
            }
        }
    }
}

} // verus!
