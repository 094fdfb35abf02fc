//! Proofs about the marker generator: the markers of every tree are in
//! token order, their indentation is balanced and their groups are closed.

use vstd::prelude::*;
use crate::formatting::{
    after_children, after_element, after_node, boundary_marker, shift_to, Walk,
};
use crate::formatting::{markers_of, parted, shifted};
use crate::markers::{group_step, indent_change, indent_level, open_groups, well_formed, Marker};
use crate::syntax::ModelicaCST;
use crate::rules::grouped;
use crate::syntax::{Element, SyntaxNode};

verus! {

/// `w1` is a later state of the walk `w0`: nothing placed or passed is
/// taken back.
pub open spec fn extends(w0: Walk, w1: Walk) -> bool {
    &&& w0.items.len() <= w1.items.len()
    &&& w1.items.take(w0.items.len() as int) =~= w0.items
    &&& w0.tokens.len() <= w1.tokens.len()
}

/// Between `w0` and `w1` the markers were placed in token order, in front of
/// tokens passed in between; the indentation never fell under its level at
/// `w0` plus `floor`, and ends `lift` levels above it.
pub open spec fn steady(w0: Walk, w1: Walk, lift: int, floor: int) -> bool {
    &&& extends(w0, w1)
    &&& forall|j: int|
        w0.items.len() <= j < w1.items.len() ==> w0.tokens.len() <= (#[trigger] w1.items[j]).0
            <= w1.tokens.len()
    &&& forall|a: int, b: int|
        w0.items.len() <= a <= b < w1.items.len() ==> (#[trigger] w1.items[a]).0 <= (
        #[trigger] w1.items[b]).0
    &&& forall|k: int|
        w0.items.len() <= k <= w1.items.len() ==> indent_level(#[trigger] w1.items.take(k))
            >= indent_level(w0.items) + floor
    &&& indent_level(w1.items) == indent_level(w0.items) + lift
}

/// Every identifier in `stack` is under `bound`.
pub open spec fn ids_below(stack: Seq<usize>, bound: nat) -> bool {
    forall|i: int| 0 <= i < stack.len() ==> (#[trigger] stack[i]) < bound
}

/// What one more marker adds to the level of indentation and to the open groups.
pub proof fn lemma_level_push(items: Seq<(usize, Marker)>, x: (usize, Marker))
    ensures
        indent_level(items.push(x)) == indent_level(items) + indent_change(x.1),
        open_groups(items.push(x)) == group_step(open_groups(items), x.1),
{
    assert(items.push(x).drop_last() =~= items);
}

/// A later state of a later state is a later state.
pub proof fn lemma_extends_trans(w0: Walk, w1: Walk, w2: Walk)
    requires
        extends(w0, w1),
        extends(w1, w2),
    ensures
        extends(w0, w2),
{
    assert(w2.items.take(w0.items.len() as int) =~= w1.items.take(w1.items.len() as int).take(
        w0.items.len() as int,
    )) by {
        assert(w2.items.take(w1.items.len() as int) =~= w1.items);
        assert forall|i: int| 0 <= i < w0.items.len() implies w2.items[i] == w1.items[i] by {
            assert(w2.items.take(w1.items.len() as int)[i] == w1.items[i]);
        }
    }
    assert(w1.items.take(w1.items.len() as int) =~= w1.items);
}

/// Two steady stretches of a walk, one after the other, are steady together.
pub proof fn lemma_steady_trans(w0: Walk, w1: Walk, w2: Walk, l1: int, f1: int, l2: int, f2: int)
    requires
        steady(w0, w1, l1, f1),
        steady(w1, w2, l2, f2),
    ensures
        steady(w0, w2, l1 + l2, if f1 <= l1 + f2 { f1 } else { l1 + f2 }),
{
    lemma_extends_trans(w0, w1, w2);
    let floor = if f1 <= l1 + f2 { f1 } else { l1 + f2 };
    assert(w2.items.take(w1.items.len() as int) =~= w1.items);
    assert forall|j: int| 0 <= j < w1.items.len() implies w2.items[j] == w1.items[j] by {
        assert(w2.items.take(w1.items.len() as int)[j] == w1.items[j]);
    }
    assert forall|k: int| w0.items.len() <= k <= w2.items.len() implies indent_level(
        #[trigger] w2.items.take(k),
    ) >= indent_level(w0.items) + floor by {
        if k <= w1.items.len() {
            assert(w2.items.take(k) =~= w1.items.take(k));
        }
    }
    assert forall|a: int, b: int| w0.items.len() <= a <= b < w2.items.len() implies (
    #[trigger] w2.items[a]).0 <= (#[trigger] w2.items[b]).0 by {
        if b < w1.items.len() {
            assert(w1.items[a].0 <= w1.items[b].0);
        } else if a < w1.items.len() {
            assert(w1.items[a].0 <= w1.tokens.len());
            assert(w1.tokens.len() <= w2.items[b].0);
        }
    }
    assert forall|j: int| w0.items.len() <= j < w2.items.len() implies w0.tokens.len() <= (
    #[trigger] w2.items[j]).0 <= w2.tokens.len() by {
        if j < w1.items.len() {
            assert(w0.tokens.len() <= w1.items[j].0 <= w1.tokens.len());
        }
    }
}

/// A walk that has not moved is steady.
pub proof fn lemma_steady_refl(w: Walk)
    ensures
        steady(w, w, 0, 0),
{
    assert(w.items.take(w.items.len() as int) =~= w.items);
}

/// Placing one marker keeps the walk steady.
pub proof fn lemma_steady_place(w: Walk, m: Marker)
    requires
        w.tokens.len() <= usize::MAX,
    ensures
        steady(
            w,
            w.place(m),
            indent_change(m),
            if indent_change(m) < 0 {
                indent_change(m)
            } else {
                0
            },
        ),
        open_groups(w.place(m).items) == group_step(open_groups(w.items), m),
{
    let x = (w.tokens.len() as usize, m);
    let w1 = w.place(m);
    lemma_level_push(w.items, x);
    assert(w1.items.take(w.items.len() as int) =~= w.items);
    assert(w1.items.take(w1.items.len() as int) =~= w1.items);
    assert forall|k: int| w.items.len() <= k <= w1.items.len() implies indent_level(
        #[trigger] w1.items.take(k),
    ) >= indent_level(w.items) + (if indent_change(m) < 0 {
        indent_change(m)
    } else {
        0
    }) by {
        if k == w.items.len() {
            assert(w1.items.take(k) =~= w.items);
        } else {
            assert(w1.items.take(k) =~= w1.items);
        }
    }
}

/// Placing a marker, or none, that is no end of a group and no change of
/// indentation keeps the walk steady and its groups as they are.
pub proof fn lemma_steady_place_if(w: Walk, m: Option<Marker>)
    requires
        w.tokens.len() <= usize::MAX,
        m matches Some(x) ==> indent_change(x) == 0 && !(x is Group),
    ensures
        steady(w, w.place_if(m), 0, 0),
        open_groups(w.place_if(m).items) == open_groups(w.items),
{
    match m {
        Some(x) => {
            lemma_steady_place(w, x);
        },
        None => {
            lemma_steady_refl(w);
        },
    }
}

/// What the walk over an element adds to the tokens is the tokens of the
/// element.
pub proof fn lemma_element_extends(e: Element, w: Walk)
    ensures
        extends(w, after_element(e, w)),
        after_element(e, w).tokens =~= w.tokens + e.leaves(),
    decreases e, 0nat, 0nat,
{
    match e {
        Element::Token(t) => {
            assert(w.items.take(w.items.len() as int) =~= w.items);
        },
        Element::Node(n) => {
            lemma_node_extends(n, w);
        },
    }
}

/// Placing a marker takes nothing back.
pub proof fn lemma_place_extends(w: Walk, m: Marker)
    ensures
        extends(w, w.place(m)),
{
    assert(w.place(m).items.take(w.items.len() as int) =~= w.items);
}

/// What the walk over a node adds to the tokens is the tokens of the node.
pub proof fn lemma_node_extends(n: SyntaxNode, w: Walk)
    ensures
        extends(w, after_node(n, w)),
        after_node(n, w).tokens =~= w.tokens + n.leaves(),
    decreases n, 1nat, n.children@.len(),
{
    let id = w.items.len() as usize;
    let opened = if grouped(n.kind) {
        w.place(Marker::Group(id))
    } else {
        w
    };
    lemma_place_extends(w, Marker::Group(id));
    assert(w.items.take(w.items.len() as int) =~= w.items);
    assert(extends(w, opened));
    lemma_children_extends(n, n.children@.len(), opened);
    let (walked, local) = after_children(n, n.children@.len(), opened);
    lemma_extends_trans(w, opened, walked);
    let closed = if local.inside {
        walked.place(shift_to(false))
    } else {
        walked
    };
    lemma_place_extends(walked, shift_to(false));
    assert(walked.items.take(walked.items.len() as int) =~= walked.items);
    lemma_extends_trans(w, walked, closed);
    lemma_place_extends(closed, Marker::Group(id));
    assert(closed.items.take(closed.items.len() as int) =~= closed.items);
    lemma_extends_trans(w, closed, after_node(n, w));
}

/// What the walk over the first `k` children adds to the tokens is their tokens; it
/// remembers a child exactly where it has passed a token.
pub proof fn lemma_children_extends(n: SyntaxNode, k: nat, w: Walk)
    requires
        k <= n.children@.len(),
    ensures
        extends(w, after_children(n, k, w).0),
        after_children(n, k, w).0.tokens =~= w.tokens + n.leaves_upto(k),
        after_children(n, k, w).1.left is Some <==> after_children(n, k, w).0.tokens.len()
            > w.tokens.len(),
    decreases n, 0nat, k,
{
    if k == 0 {
        assert(w.items.take(w.items.len() as int) =~= w.items);
    } else {
        lemma_children_extends(n, (k - 1) as nat, w);
        let (before, local) = after_children(n, (k - 1) as nat, w);
        let child = n.children@[k - 1];
        if child.leaves().len() != 0 {
            let parted = parted(n, k, before, local);
            let shifted = shifted(n, k, parted, local);
            assert(extends(before, parted)) by {
                assert(before.items.take(before.items.len() as int) =~= before.items);
                if parted != before {
                    assert(parted.items.take(before.items.len() as int) =~= before.items);
                }
            }
            assert(extends(parted, shifted)) by {
                assert(parted.items.take(parted.items.len() as int) =~= parted.items);
                if shifted != parted {
                    assert(shifted.items.take(parted.items.len() as int) =~= parted.items);
                }
            }
            lemma_element_extends(child, shifted);
            lemma_extends_trans(w, before, parted);
            lemma_extends_trans(w, parted, shifted);
            lemma_extends_trans(w, shifted, after_element(child, shifted));
        }
    }
}

/// The walk over an element is steady and leaves the open groups as they
/// were.
pub proof fn lemma_element_steady(e: Element, w: Walk)
    requires
        after_element(e, w).tokens.len() <= usize::MAX,
        after_element(e, w).items.len() <= usize::MAX,
        ids_below(open_groups(w.items), w.items.len()),
    ensures
        steady(w, after_element(e, w), 0, 0),
        open_groups(after_element(e, w).items) == open_groups(w.items),
    decreases e, 0nat, 0nat,
{
    match e {
        Element::Token(t) => {
            assert(w.items.take(w.items.len() as int) =~= w.items);
        },
        Element::Node(n) => {
            lemma_node_steady(n, w);
        },
    }
}

/// The walk over a node is steady and leaves the open groups as they were.
pub proof fn lemma_node_steady(n: SyntaxNode, w: Walk)
    requires
        after_node(n, w).tokens.len() <= usize::MAX,
        after_node(n, w).items.len() <= usize::MAX,
        ids_below(open_groups(w.items), w.items.len()),
    ensures
        steady(w, after_node(n, w), 0, 0),
        open_groups(after_node(n, w).items) == open_groups(w.items),
    decreases n, 1nat, n.children@.len(),
{
    let id = w.items.len() as usize;
    let stack = open_groups(w.items);
    let opened = if grouped(n.kind) {
        w.place(Marker::Group(id))
    } else {
        w
    };
    let (walked, local) = after_children(n, n.children@.len(), opened);
    let closed = if local.inside {
        walked.place(shift_to(false))
    } else {
        walked
    };
    let done = after_node(n, w);
    // nothing is taken back on the way, so every state is within the limits
    lemma_place_extends(w, Marker::Group(id));
    lemma_children_extends(n, n.children@.len(), opened);
    lemma_place_extends(walked, shift_to(false));
    lemma_place_extends(closed, Marker::Group(id));
    assert(walked.items.len() <= closed.items.len() <= done.items.len());
    assert(walked.tokens.len() <= closed.tokens.len() <= done.tokens.len());
    assert(w.items.len() <= opened.items.len() <= walked.items.len());
    assert(w.tokens.len() <= opened.tokens.len() <= walked.tokens.len());

    if grouped(n.kind) {
        lemma_steady_place(w, Marker::Group(id));
        assert(open_groups(opened.items) == stack.push(id));
        assert forall|i: int| 0 <= i < stack.push(id).len() implies (#[trigger] stack.push(
            id,
        )[i]) < opened.items.len() by {
            if i < stack.len() {
                assert(stack[i] < w.items.len());
            }
        }
    } else {
        lemma_steady_refl(w);
    }
    assert(steady(w, opened, 0, 0));
    lemma_children_steady(n, n.children@.len(), opened);
    let lift: int = if local.inside { 1 } else { 0 };
    lemma_steady_trans(w, opened, walked, 0, 0, lift, 0);
    if local.inside {
        lemma_steady_place(walked, shift_to(false));
        lemma_steady_trans(w, walked, closed, 1, 0, -1, -1);
    }
    assert(steady(w, closed, 0, 0));
    assert(open_groups(closed.items) == open_groups(opened.items));
    if grouped(n.kind) {
        lemma_steady_place(closed, Marker::Group(id));
        lemma_steady_trans(w, closed, done, 0, 0, 0, 0);
        assert(stack.push(id).drop_last() =~= stack);
    }
}

/// The walk over the first `k` children of a node is steady, ends one level
/// up where the last child is indented, and leaves the open groups as they
/// were.
pub proof fn lemma_children_steady(n: SyntaxNode, k: nat, w: Walk)
    requires
        k <= n.children@.len(),
        after_children(n, k, w).0.tokens.len() <= usize::MAX,
        after_children(n, k, w).0.items.len() <= usize::MAX,
        ids_below(open_groups(w.items), w.items.len()),
    ensures
        steady(
            w,
            after_children(n, k, w).0,
            if after_children(n, k, w).1.inside {
                1
            } else {
                0
            },
            0,
        ),
        open_groups(after_children(n, k, w).0.items) == open_groups(w.items),
    decreases n, 0nat, k,
{
    if k == 0 {
        lemma_steady_refl(w);
    } else {
        let (before, local) = after_children(n, (k - 1) as nat, w);
        let child = n.children@[k - 1];
        lemma_children_extends(n, (k - 1) as nat, w);
        if child.leaves().len() == 0 {
            lemma_children_steady(n, (k - 1) as nat, w);
        } else {
            let first = child.leaves()[0];
            let cut = parted(n, k, before, local);
            let moved = shifted(n, k, cut, local);
            let inside = crate::formatting::child_inside(n.kind, child.kind(), local.inside);
            let done = after_element(child, moved);
            lemma_element_extends(child, moved);
            assert(extends(before, cut)) by {
                assert(before.items.take(before.items.len() as int) =~= before.items);
                if cut != before {
                    assert(cut.items.take(before.items.len() as int) =~= before.items);
                }
            }
            assert(extends(cut, moved)) by {
                assert(cut.items.take(cut.items.len() as int) =~= cut.items);
                if moved != cut {
                    assert(moved.items.take(cut.items.len() as int) =~= cut.items);
                }
            }
            lemma_children_steady(n, (k - 1) as nat, w);
            let a: int = if local.inside { 1 } else { 0 };
            // the marker at the boundary
            match local.left {
                Some(left) if before.tokens.len() > 0 => {
                    let m = boundary_marker(
                        crate::rules::separator(n.kind, left, child.kind(), first.kind, local.lead),
                        before.tokens.last(),
                        first,
                    );
                    lemma_steady_place_if(before, m);
                },
                _ => {
                    lemma_steady_refl(before);
                },
            }
            lemma_steady_trans(w, before, cut, a, 0, 0, 0);
            // the change of indentation
            if inside != local.inside {
                lemma_steady_place(cut, shift_to(inside));
                if inside {
                    lemma_steady_trans(w, cut, moved, 0, 0, 1, 0);
                } else {
                    lemma_steady_trans(w, cut, moved, 1, 0, -1, -1);
                }
            }
            let b: int = if inside { 1 } else { 0 };
            assert(steady(w, moved, b, 0));
            assert(open_groups(moved.items) == open_groups(w.items));
            // the child
            lemma_element_steady(child, moved);
            lemma_steady_trans(w, moved, done, b, 0, 0, 0);
        }
    }
}

/// `a` is the beginning of `b`.
pub open spec fn under(a: Seq<usize>, b: Seq<usize>) -> bool {
    a.len() <= b.len() && forall|i: int| 0 <= i < a.len() ==> a[i] == b[i]
}

/// From `w0` to `w1` the groups that were open at `w0` stay open: after
/// every marker placed in between, they are the outermost open groups.
pub open spec fn rooted(w0: Walk, w1: Walk) -> bool {
    forall|k: int|
        w0.items.len() <= k <= w1.items.len() ==> under(
            open_groups(w0.items),
            open_groups(#[trigger] w1.items.take(k)),
        )
}

/// A walk that has not moved keeps its groups open.
pub proof fn lemma_rooted_refl(w: Walk)
    ensures
        rooted(w, w),
{
    assert(w.items.take(w.items.len() as int) =~= w.items);
}

/// Two stretches of a walk that keep their groups open keep them open
/// together.
pub proof fn lemma_rooted_trans(w0: Walk, w1: Walk, w2: Walk)
    requires
        extends(w0, w1),
        extends(w1, w2),
        rooted(w0, w1),
        rooted(w1, w2),
    ensures
        rooted(w0, w2),
{
    assert(w1.items.take(w1.items.len() as int) =~= w1.items);
    assert(under(open_groups(w0.items), open_groups(w1.items)));
    assert forall|k: int| w0.items.len() <= k <= w2.items.len() implies under(
        open_groups(w0.items),
        open_groups(#[trigger] w2.items.take(k)),
    ) by {
        if k <= w1.items.len() {
            assert(w2.items.take(k) =~= w1.items.take(k)) by {
                assert(w2.items.take(w1.items.len() as int) =~= w1.items);
                assert forall|i: int| 0 <= i < k implies w2.items[i] == w1.items[i] by {
                    assert(w2.items.take(w1.items.len() as int)[i] == w1.items[i]);
                }
            }
        } else {
            assert(under(open_groups(w1.items), open_groups(w2.items.take(k))));
        }
    }
}

/// Placing one marker keeps the groups open, unless it closes one of them.
pub proof fn lemma_rooted_place(w: Walk, m: Marker)
    requires
        w.tokens.len() <= usize::MAX,
        under(open_groups(w.items), group_step(open_groups(w.items), m)),
    ensures
        rooted(w, w.place(m)),
{
    let w1 = w.place(m);
    lemma_steady_place(w, m);
    assert forall|k: int| w.items.len() <= k <= w1.items.len() implies under(
        open_groups(w.items),
        open_groups(#[trigger] w1.items.take(k)),
    ) by {
        if k == w.items.len() {
            assert(w1.items.take(k) =~= w.items);
        } else {
            assert(w1.items.take(k) =~= w1.items);
        }
    }
}

/// The walk over an element keeps the groups open that were open.
pub proof fn lemma_element_rooted(e: Element, w: Walk)
    requires
        after_element(e, w).tokens.len() <= usize::MAX,
        after_element(e, w).items.len() <= usize::MAX,
        ids_below(open_groups(w.items), w.items.len()),
    ensures
        rooted(w, after_element(e, w)),
    decreases e, 0nat, 0nat,
{
    match e {
        Element::Token(t) => {
            lemma_rooted_refl(w);
        },
        Element::Node(n) => {
            lemma_node_rooted(n, w);
        },
    }
}

/// The walk over a node keeps the groups open that were open.
pub proof fn lemma_node_rooted(n: SyntaxNode, w: Walk)
    requires
        after_node(n, w).tokens.len() <= usize::MAX,
        after_node(n, w).items.len() <= usize::MAX,
        ids_below(open_groups(w.items), w.items.len()),
    ensures
        rooted(w, after_node(n, w)),
    decreases n, 1nat, n.children@.len(),
{
    let id = w.items.len() as usize;
    let stack = open_groups(w.items);
    let opened = if grouped(n.kind) {
        w.place(Marker::Group(id))
    } else {
        w
    };
    let (walked, local) = after_children(n, n.children@.len(), opened);
    let closed = if local.inside {
        walked.place(shift_to(false))
    } else {
        walked
    };
    let done = after_node(n, w);
    lemma_place_extends(w, Marker::Group(id));
    lemma_children_extends(n, n.children@.len(), opened);
    lemma_place_extends(walked, shift_to(false));
    lemma_place_extends(closed, Marker::Group(id));
    assert(w.items.take(w.items.len() as int) =~= w.items);
    assert(walked.items.take(walked.items.len() as int) =~= walked.items);
    assert(closed.items.take(closed.items.len() as int) =~= closed.items);
    if grouped(n.kind) {
        lemma_steady_place(w, Marker::Group(id));
        assert(open_groups(opened.items) == stack.push(id));
        assert forall|i: int| 0 <= i < stack.push(id).len() implies (#[trigger] stack.push(
            id,
        )[i]) < opened.items.len() by {
            if i < stack.len() {
                assert(stack[i] < w.items.len());
            }
        }
        lemma_rooted_place(w, Marker::Group(id));
    } else {
        lemma_rooted_refl(w);
    }
    lemma_children_steady(n, n.children@.len(), opened);
    lemma_children_rooted(n, n.children@.len(), opened);
    lemma_rooted_trans(w, opened, walked);
    lemma_extends_trans(w, opened, walked);
    if local.inside {
        lemma_steady_place(walked, shift_to(false));
        lemma_rooted_place(walked, shift_to(false));
    } else {
        lemma_rooted_refl(walked);
    }
    lemma_rooted_trans(w, walked, closed);
    lemma_extends_trans(w, walked, closed);
    assert(open_groups(closed.items) == open_groups(opened.items));
    if grouped(n.kind) {
        lemma_steady_place(closed, Marker::Group(id));
        assert(stack.push(id).drop_last() =~= stack);
        assert forall|k: int| closed.items.len() <= k <= done.items.len() implies under(
            open_groups(closed.items),
            open_groups(#[trigger] done.items.take(k)),
        ) || under(stack, open_groups(done.items.take(k))) by {
            if k == closed.items.len() {
                assert(done.items.take(k) =~= closed.items);
            } else {
                assert(done.items.take(k) =~= done.items);
            }
        }
        assert forall|k: int| w.items.len() <= k <= done.items.len() implies under(
            stack,
            open_groups(#[trigger] done.items.take(k)),
        ) by {
            if k <= closed.items.len() {
                assert(done.items.take(k) =~= closed.items.take(k)) by {
                    assert(done.items.take(closed.items.len() as int) =~= closed.items);
                    assert forall|i: int| 0 <= i < k implies done.items[i] == closed.items[i] by {
                        assert(done.items.take(closed.items.len() as int)[i] == closed.items[i]);
                    }
                }
            } else {
                assert(done.items.take(k) =~= done.items);
            }
        }
    }
}

/// The walk over the first `k` children of a node keeps the groups open
/// that were open.
pub proof fn lemma_children_rooted(n: SyntaxNode, k: nat, w: Walk)
    requires
        k <= n.children@.len(),
        after_children(n, k, w).0.tokens.len() <= usize::MAX,
        after_children(n, k, w).0.items.len() <= usize::MAX,
        ids_below(open_groups(w.items), w.items.len()),
    ensures
        rooted(w, after_children(n, k, w).0),
    decreases n, 0nat, k,
{
    if k == 0 {
        lemma_rooted_refl(w);
    } else {
        let (before, local) = after_children(n, (k - 1) as nat, w);
        let child = n.children@[k - 1];
        lemma_children_extends(n, (k - 1) as nat, w);
        if child.leaves().len() == 0 {
            lemma_children_rooted(n, (k - 1) as nat, w);
        } else {
            let first = child.leaves()[0];
            let cut = parted(n, k, before, local);
            let moved = shifted(n, k, cut, local);
            let inside = crate::formatting::child_inside(n.kind, child.kind(), local.inside);
            let done = after_element(child, moved);
            lemma_element_extends(child, moved);
            assert(extends(before, cut)) by {
                assert(before.items.take(before.items.len() as int) =~= before.items);
                if cut != before {
                    assert(cut.items.take(before.items.len() as int) =~= before.items);
                }
            }
            assert(extends(cut, moved)) by {
                assert(cut.items.take(cut.items.len() as int) =~= cut.items);
                if moved != cut {
                    assert(moved.items.take(cut.items.len() as int) =~= cut.items);
                }
            }
            lemma_children_steady(n, (k - 1) as nat, w);
            lemma_children_rooted(n, (k - 1) as nat, w);
            match local.left {
                Some(left) if before.tokens.len() > 0 => {
                    let m = boundary_marker(
                        crate::rules::separator(n.kind, left, child.kind(), first.kind, local.lead),
                        before.tokens.last(),
                        first,
                    );
                    lemma_steady_place_if(before, m);
                    match m {
                        Some(x) => {
                            lemma_rooted_place(before, x);
                        },
                        None => {
                            lemma_rooted_refl(before);
                        },
                    }
                },
                _ => {
                    lemma_rooted_refl(before);
                },
            }
            lemma_rooted_trans(w, before, cut);
            lemma_extends_trans(w, before, cut);
            if inside != local.inside {
                lemma_steady_place(cut, shift_to(inside));
                lemma_rooted_place(cut, shift_to(inside));
            } else {
                lemma_rooted_refl(cut);
            }
            lemma_rooted_trans(w, cut, moved);
            lemma_extends_trans(w, cut, moved);
            assert(open_groups(moved.items) == open_groups(w.items));
            lemma_element_rooted(child, moved);
            lemma_rooted_trans(w, moved, done);
        }
    }
}

/// The markers of a tree are well formed for its tokens.
pub proof fn lemma_markers_well_formed(tree: ModelicaCST)
    requires
        tree.tokens().len() <= usize::MAX,
        markers_of(tree).len() <= usize::MAX,
    ensures
        well_formed(markers_of(tree), tree.tokens().len()),
{
    let w = Walk::start();
    let done = after_node(tree.root, w);
    lemma_node_extends(tree.root, w);
    assert(done.tokens =~= tree.tokens());
    lemma_node_steady(tree.root, w);
    assert(done.items.take(done.items.len() as int) =~= done.items);
}

} // verus!
