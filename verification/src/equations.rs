//! Proof of how an equation is broken: the left side and the equal sign
//! stay on one line, and the line is broken behind the sign where the
//! equation does not fit.

use vstd::prelude::*;
use crate::attachment::lemma_run_attentive;
use crate::balance::{
    extends, ids_below, lemma_children_extends, lemma_children_rooted, lemma_children_steady,
    lemma_element_extends, lemma_element_steady, lemma_extends_trans, lemma_node_extends,
    lemma_place_extends, lemma_steady_place, lemma_steady_place_if, rooted, steady, under,
};
use crate::fitting::{ids_of, lemma_groups_read};
use crate::formatting::{
    after_children, after_element, after_node, boundary_marker, child_inside, comment_marker,
    parted, shift_to, shifted, Local, Walk,
};
use crate::layout::{lemma_run_progress, Lead, Page};
use crate::markers::{indent_balanced, indent_level, open_groups, ordered, Break, Marker, Shift};
use crate::stability::leads;
use crate::rules::{attaches, closes, grouped, indented, opens, separator, Sep};
use crate::syntax::{Element, SyntaxKind, SyntaxNode, Token};

verus! {

/// An equation with a left side, an equal sign and a right side, none of
/// them parted from the next by a comment: the first child holds tokens
/// and is no expression of the right side, the second is the sign, the
/// third is the expression on the right side.
pub open spec fn plain_equation(n: SyntaxNode) -> bool {
    &&& n.kind == SyntaxKind::Equation
    &&& n.children@.len() >= 3
    &&& n.children@[0].leaves().len() > 0
    &&& !n.children@[0].leaves().last().kind.is_comment()
    &&& !n.children@[0].kind().is_comment()
    &&& !opens(n.children@[0].kind())
    &&& n.children@[0].kind() != SyntaxKind::Comma
    &&& n.children@[0].kind() != SyntaxKind::Equal
    &&& n.children@[0].kind() != SyntaxKind::Assign
    &&& n.children@[0].kind() != SyntaxKind::Expression
    &&& n.children@[0].kind() != SyntaxKind::Description
    &&& n.children@[1] matches Element::Token(sign) && sign.kind == SyntaxKind::Equal
    &&& n.children@[2] matches Element::Node(right) && right.kind == SyntaxKind::Expression
    &&& n.children@[2].leaves().len() > 0
    &&& !n.children@[2].leaves()[0].kind.is_comment()
    &&& !closes(n.children@[2].leaves()[0].kind)
}

/// The walk in front of the sign of a plain equation entered at `w`.
pub open spec fn at_sign(n: SyntaxNode, w: Walk) -> Walk {
    after_element(n.children@[0], w.place(Marker::Group(w.items.len() as usize)))
}

/// The walk behind the sign of a plain equation entered at `w`.
pub open spec fn behind_sign(n: SyntaxNode, w: Walk) -> Walk {
    at_sign(n, w).place(Marker::Space(1)).pass(n.children@[1]->Token_0)
}

/// Where the markers of a plain equation stand: the group opens in front
/// of the left side; one space stands in front of the sign; behind the sign
/// stand the soft break and the step that indents the right side.
pub proof fn lemma_equation_marks(n: SyntaxNode, w: Walk)
    requires
        plain_equation(n),
    ensures
        ({
            let opened = w.place(Marker::Group(w.items.len() as usize));
            let broken = behind_sign(n, w).place(Marker::Break(Break::Soft)).place(
                Marker::IndentDelta(Shift::Push),
            );
            &&& after_children(n, 1, opened).0 == at_sign(n, w)
            &&& after_children(n, 2, opened).0 == behind_sign(n, w)
            &&& after_children(n, 3, opened).0 == after_element(n.children@[2], broken)
        }),
{
    reveal(grouped);
    reveal(indented);
    reveal(separator);
    let opened = w.place(Marker::Group(w.items.len() as usize));
    let start = after_children(n, 0, opened);
    assert(start.0 == opened);
    let one = after_children(n, 1, opened);
    assert(parted(n, 1, opened, start.1) == opened);
    assert(shifted(n, 1, opened, start.1) == opened);
    assert(one.0 == at_sign(n, w));
    crate::balance::lemma_element_extends(n.children@[0], opened);
    assert(one.0.tokens.len() > 0);
    assert(one.0.tokens.last() == n.children@[0].leaves().last());
    let sign = n.children@[1]->Token_0;
    assert(n.children@[1].leaves() =~= seq![sign]);
    assert(comment_marker(one.0.tokens.last(), sign) is None);
    assert(one.1 == Local { inside: false, left: Some(n.children@[0].kind()), lead: true });
    let two = after_children(n, 2, opened);
    let cut = one.0.place(Marker::Space(1));
    assert(n.children@[1].kind() == SyntaxKind::Equal);
    assert(separator(n.kind, n.children@[0].kind(), SyntaxKind::Equal, SyntaxKind::Equal, true)
        == Sep::Space);
    assert(boundary_marker(Sep::Space, one.0.tokens.last(), sign) == Some(Marker::Space(1)));
    assert(parted(n, 2, one.0, one.1) == cut);
    assert(child_inside(n.kind, SyntaxKind::Equal, false) == false);
    assert(shifted(n, 2, cut, one.1) == cut);
    assert(after_element(n.children@[1], cut) == cut.pass(sign));
    assert(two.0 == behind_sign(n, w));
    assert(two.1 == Local { inside: false, left: Some(SyntaxKind::Equal), lead: false });
    assert(two.0.tokens.last() == sign);
    let first = n.children@[2].leaves()[0];
    assert(comment_marker(sign, first) is None);
    assert(!attaches(SyntaxKind::Expression, first.kind));
    assert(n.children@[2].kind() == SyntaxKind::Expression);
    assert(separator(n.kind, SyntaxKind::Equal, SyntaxKind::Expression, first.kind, false)
        == Sep::Soft);
    assert(boundary_marker(Sep::Soft, sign, first) == Some(Marker::Break(Break::Soft)));
    assert(parted(n, 3, two.0, two.1) == two.0.place(Marker::Break(Break::Soft)));
    assert(child_inside(n.kind, SyntaxKind::Expression, false));
}

/// On markers in token order, marker `q` is read in the step that follows
/// as many steps as there are markers and tokens in front of it.
pub proof fn lemma_step_of(page: Page, q: int)
    requires
        ordered(page.items, page.widths.len()),
        0 <= q < page.items.len(),
    ensures
        page.run((q + page.items[q].0) as nat).next == q,
        page.run((q + page.items[q].0) as nat).leads.len() == page.items[q].0,
{
    let t = page.items[q].0;
    let s = (q + t) as nat;
    let c = page.run(s);
    lemma_run_progress(page, s);
    lemma_run_attentive(page, s, Marker::Break(Break::Hard));
    if c.next < q {
        assert(page.items[c.next as int].0 >= c.leads.len());
        assert(page.items[c.next as int].0 <= page.items[q].0);
    } else if c.next > q {
        assert(page.items[q].0 <= c.leads.len());
    }
}

/// The markers are read in their order.
pub proof fn lemma_next_grows(page: Page, a: nat, b: nat)
    requires
        a <= b,
    ensures
        page.run(a).next <= page.run(b).next,
        page.run(a).leads.len() <= page.run(b).leads.len(),
    decreases b,
{
    if a < b {
        lemma_next_grows(page, a, (b - 1) as nat);
    }
}

/// The groups that are open are those that the markers read have opened.
pub proof fn lemma_run_groups(page: Page, steps: nat)
    ensures
        page.run(steps).next <= page.items.len(),
        ids_of(page.run(steps).groups) == open_groups(
            page.items.take(page.run(steps).next as int),
        ),
    decreases steps,
{
    if steps > 0 {
        let c = page.run((steps - 1) as nat);
        lemma_run_groups(page, (steps - 1) as nat);
        if page.due(c.next, c.leads.len()) {
            lemma_groups_read(page.items, c.next as int, c.groups);
        }
    } else {
        assert(page.items.take(0) =~= Seq::<(usize, Marker)>::empty());
        assert(ids_of(page.start().groups) =~= Seq::<usize>::empty());
    }
}

/// A group stays as it was decided as long as it is open.
pub proof fn lemma_flag_kept(page: Page, a: nat, b: nat, depth: int)
    requires
        a <= b,
        0 <= depth,
        forall|s: nat| a <= s <= b ==> (#[trigger] page.run(s)).groups.len() > depth,
    ensures
        page.run(b).groups[depth] == page.run(a).groups[depth],
    decreases b,
{
    if a < b {
        lemma_flag_kept(page, a, (b - 1) as nat, depth);
        let c = page.run((b - 1) as nat);
        assert(c.groups.len() > depth);
        assert(page.run(b).groups.len() > depth);
        assert(page.run(b) == page.step(c));
    }
}

/// A new line once asked for in front of a token is given.
pub proof fn lemma_line_sticks(page: Page, s: nat, k: nat)
    requires
        page.run(s).gap is Line,
        page.run(s).leads.len() >= 1,
    ensures
        ({
            let t = page.run(s).leads.len() as int;
            let d = page.run(s + k);
            (d.leads.len() == t && d.gap is Line) || (d.leads.len() > t && d.leads[t] is Line)
        }),
    decreases k,
{
    if k > 0 {
        lemma_line_sticks(page, s, (k - 1) as nat);
        let c = page.run((s + k - 1) as nat);
        assert(page.run(s + k) == page.step(c));
    }
}

/// Marker `p` stands directly in the group that marker `o` opens: the
/// group opens inside the groups that are open there, stays open up to
/// marker `p`, and is the innermost group there.
pub open spec fn directly_in(items: Seq<(usize, Marker)>, o: int, p: int, id: usize) -> bool {
    &&& 0 <= o < p < items.len()
    &&& items[o].1 == Marker::Group(id)
    &&& ids_below(open_groups(items.take(o)), o as nat)
    &&& id == o
    &&& open_groups(items.take(p)) == open_groups(items.take(o)).push(id)
    &&& forall|k: int|
        o < k <= p ==> open_groups(#[trigger] items.take(k)).len() > open_groups(
            items.take(o),
        ).len()
}

/// A soft break is taken or left as its group was decided: where a soft
/// break stands directly in a group, the printer reads it in that group,
/// flat or broken as it was decided when the group opened.
pub proof fn lemma_soft_break_in_its_group(page: Page, o: int, p: int, id: usize)
    requires
        ordered(page.items, page.widths.len()),
        directly_in(page.items, o, p, id),
    ensures
        ({
            let front = page.run((o + page.items[o].0) as nat);
            let soft = page.run((p + page.items[p].0) as nat);
            &&& front.next == o
            &&& front.leads.len() == page.items[o].0
            &&& page.due(front.next, front.leads.len())
            &&& front.groups.len() == 0 || front.groups.last().0 != id
            &&& soft.next == p
            &&& soft.leads.len() == page.items[p].0
            &&& page.due(soft.next, soft.leads.len())
            &&& soft.groups.len() > 0
            &&& soft.groups.last() == (id, front.in_flat() || page.fits(front, id))
        }),
{
    let items = page.items;
    let stack = open_groups(items.take(o));
    lemma_step_of(page, o);
    lemma_step_of(page, p);
    let so = (o + items[o].0) as nat;
    let sp = (p + items[p].0) as nat;
    let front = page.run(so);
    let soft = page.run(sp);
    lemma_run_groups(page, so);
    lemma_run_groups(page, sp);
    lemma_groups_read(items, o, front.groups);
    if front.groups.len() > 0 {
        assert(ids_of(front.groups).last() == stack[stack.len() - 1]);
        assert(stack[stack.len() - 1] < o);
    }
    let a = so + 1;
    let depth = stack.len() as int;
    assert(page.run(a) == page.step(front));
    assert(page.run(a).groups == front.groups.push((id, front.in_flat() || page.fits(front, id))));
    assert(items[o].0 <= items[p].0);
    assert forall|s: nat| a <= s <= sp implies (#[trigger] page.run(s)).groups.len() > depth by {
        lemma_next_grows(page, a, s);
        lemma_next_grows(page, s, sp);
        lemma_run_groups(page, s);
        let k = page.run(s).next as int;
        assert(ids_of(page.run(s).groups).len() == page.run(s).groups.len());
    }
    lemma_flag_kept(page, a, sp, depth);
    assert(ids_of(soft.groups).len() == soft.groups.len());
}

/// Where the markers of a plain equation stand in the markers in which
/// the walk goes on: the marker that opens the group, and the soft break
/// behind the sign, directly in that group.
pub proof fn lemma_equation_places(n: SyntaxNode, w: Walk, items: Seq<(usize, Marker)>)
    requires
        plain_equation(n),
        leads(after_node(n, w).items, items),
        after_node(n, w).tokens.len() <= usize::MAX,
        after_node(n, w).items.len() <= usize::MAX,
        ids_below(open_groups(w.items), w.items.len()),
    ensures
        ({
            let o = w.items.len() as int;
            let p = behind_sign(n, w).items.len() as int;
            let t = behind_sign(n, w).tokens.len();
            &&& directly_in(items, o, p, o as usize)
            &&& items[o].0 == w.tokens.len()
            &&& items[p] == (t as usize, Marker::Break(Break::Soft))
            &&& items[p - 1] == ((t - 1) as usize, Marker::Space(1))
            &&& w.tokens.len() < t - 1
            &&& t < after_node(n, w).tokens.len()
        }),
{
    let id = w.items.len() as usize;
    let opened = w.place(Marker::Group(id));
    let sign = behind_sign(n, w);
    let done = after_node(n, w);
    let o = w.items.len() as int;
    let p = sign.items.len() as int;
    let stack = open_groups(w.items);
    reveal(grouped);
    lemma_equation_marks(n, w);
    lemma_walks_lead(n, w);
    lemma_equation_tokens(n, w);
    let three = after_children(n, 3, opened).0;
    assert(three.items.len() > p);
    assert(items[p] == three.items[p]);
    assert(items[o] == opened.items[o]);
    assert(items[p - 1] == sign.items[p - 1]);
    assert(items.take(o) =~= w.items);
    assert(items.take(p) =~= sign.items);
    lemma_equation_groups(n, w);
    assert forall|k: int| o < k <= p implies open_groups(#[trigger] items.take(k)).len()
        > stack.len() by {
        assert(items.take(k) =~= sign.items.take(k));
        assert(under(open_groups(opened.items), open_groups(sign.items.take(k))));
    }
    crate::balance::lemma_node_extends(n, w);
    let t = sign.tokens.len();
    assert(w.tokens.len() <= usize::MAX);
    assert(items[o].0 == w.tokens.len());
    assert(items[o].1 == Marker::Group(id));
    assert(id == o);
    assert(w.tokens.len() < t - 1);
    assert(t < done.tokens.len());
    assert(at_sign(n, w).tokens.len() == t - 1);
    assert(sign.items[p - 1] == ((t - 1) as usize, Marker::Space(1)));
    let broken = sign.place(Marker::Break(Break::Soft)).place(Marker::IndentDelta(Shift::Push));
    crate::balance::lemma_element_extends(n.children@[2], broken);
    assert(three.items.take(broken.items.len() as int)[p] == broken.items[p]);
    assert(items[p] == (t as usize, Marker::Break(Break::Soft)));
    crate::balance::lemma_element_extends(n.children@[0], opened);
    assert(o < p);
    assert(three.items.len() <= done.items.len() <= items.len());
    assert(0 <= o < p < items.len());
    assert(ids_below(open_groups(items.take(o)), o as nat));
    assert(open_groups(items.take(p)) == open_groups(items.take(o)).push(id));
    assert(id as int == o);
    assert(o as usize == id);
    assert(directly_in(items, o, p, o as usize));
}

/// How many tokens the walk over a plain equation has passed at the sign.
pub proof fn lemma_equation_tokens(n: SyntaxNode, w: Walk)
    requires
        plain_equation(n),
    ensures
        behind_sign(n, w).tokens.len() == w.tokens.len() + n.children@[0].leaves().len() + 1,
        behind_sign(n, w).tokens.len() < after_node(n, w).tokens.len(),
        behind_sign(n, w).items.len() == at_sign(n, w).items.len() + 1,
        after_children(n, 3, w.place(Marker::Group(w.items.len() as usize))).0.items.len()
            > behind_sign(n, w).items.len(),
{
    let id = w.items.len() as usize;
    let opened = w.place(Marker::Group(id));
    lemma_equation_marks(n, w);
    crate::balance::lemma_element_extends(n.children@[0], opened);
    lemma_children_extends(n, 3, opened);
    lemma_children_extends(n, n.children@.len(), opened);
    crate::balance::lemma_node_extends(n, w);
    assert(n.leaves_upto(3) == n.leaves_upto(2) + n.children@[2].leaves());
    assert(n.leaves_upto(2) == n.leaves_upto(1) + n.children@[1].leaves());
    assert(n.leaves_upto(1) == n.leaves_upto(0) + n.children@[0].leaves());
    n.lemma_leaves_prefix(3, n.children@.len());
    let broken = behind_sign(n, w).place(Marker::Break(Break::Soft)).place(
        Marker::IndentDelta(Shift::Push),
    );
    crate::balance::lemma_element_extends(n.children@[2], broken);
}

/// The group of a plain equation stays open up to the soft break behind
/// the sign and is the innermost group there.
pub proof fn lemma_equation_groups(n: SyntaxNode, w: Walk)
    requires
        plain_equation(n),
        after_node(n, w).tokens.len() <= usize::MAX,
        after_node(n, w).items.len() <= usize::MAX,
        ids_below(open_groups(w.items), w.items.len()),
    ensures
        ({
            let id = w.items.len() as usize;
            let opened = w.place(Marker::Group(id));
            &&& id == w.items.len()
            &&& open_groups(opened.items) == open_groups(w.items).push(id)
            &&& open_groups(behind_sign(n, w).items) == open_groups(w.items).push(id)
            &&& rooted(opened, behind_sign(n, w))
        }),
{
    let id = w.items.len() as usize;
    let opened = w.place(Marker::Group(id));
    let stack = open_groups(w.items);
    let done = after_node(n, w);
    reveal(grouped);
    lemma_equation_marks(n, w);
    lemma_walks_lead(n, w);
    lemma_equation_tokens(n, w);
    lemma_children_extends(n, 2, opened);
    lemma_steady_place(w, Marker::Group(id));
    assert(open_groups(opened.items) == stack.push(id)) by {
        if stack.len() > 0 {
            assert(stack[stack.len() - 1] < w.items.len());
        }
    }
    assert(ids_below(open_groups(opened.items), opened.items.len())) by {
        assert forall|i: int| 0 <= i < stack.push(id).len() implies (#[trigger] stack.push(
            id,
        )[i]) < opened.items.len() by {
            if i < stack.len() {
                assert(stack[i] < w.items.len());
            }
        }
    }
    lemma_children_steady(n, 2, opened);
    lemma_children_rooted(n, 2, opened);
}

/// The states of the walk over a plain equation lead to the markers in
/// which the walk over the equation ends.
pub proof fn lemma_walks_lead(n: SyntaxNode, w: Walk)
    requires
        plain_equation(n),
    ensures
        leads(w.place(Marker::Group(w.items.len() as usize)).items, after_node(n, w).items),
        leads(behind_sign(n, w).items, after_node(n, w).items),
        leads(
            after_children(n, 3, w.place(Marker::Group(w.items.len() as usize))).0.items,
            after_node(n, w).items,
        ),
{
    let id = w.items.len() as usize;
    let opened = w.place(Marker::Group(id));
    let done = after_node(n, w);
    reveal(grouped);
    lemma_equation_marks(n, w);
    let (walked, local) = after_children(n, n.children@.len(), opened);
    let closed = if local.inside {
        walked.place(shift_to(false))
    } else {
        walked
    };
    lemma_place_extends(walked, shift_to(false));
    lemma_place_extends(closed, Marker::Group(id));
    assert(walked.items.take(walked.items.len() as int) =~= walked.items);
    crate::balance::lemma_extends_trans(walked, closed, done);
    lemma_children_lead(n, 2, n.children@.len(), opened);
    lemma_children_lead(n, 3, n.children@.len(), opened);
    lemma_children_lead(n, 0, n.children@.len(), opened);
    crate::stability::lemma_extends_leads(walked, done, done.items);
    let two = after_children(n, 2, opened).0;
    let three = after_children(n, 3, opened).0;
    assert forall|j: int| 0 <= j < two.items.len() implies two.items[j] == done.items[j] by {
        assert(walked.items.take(two.items.len() as int)[j] == two.items[j]);
    }
    assert forall|j: int| 0 <= j < three.items.len() implies three.items[j] == done.items[j] by {
        assert(walked.items.take(three.items.len() as int)[j] == three.items[j]);
    }
    assert forall|j: int| 0 <= j < opened.items.len() implies opened.items[j] == done.items[j] by {
        assert(walked.items.take(opened.items.len() as int)[j] == opened.items[j]);
    }
}

/// The walk over the first `a` children is continued by the walk over the
/// first `b`.
pub proof fn lemma_children_lead(n: SyntaxNode, a: nat, b: nat, w: Walk)
    requires
        a <= b <= n.children@.len(),
    ensures
        crate::balance::extends(after_children(n, a, w).0, after_children(n, b, w).0),
    decreases b,
{
    if a < b {
        lemma_children_lead(n, a, (b - 1) as nat, w);
        let (before, local) = after_children(n, (b - 1) as nat, w);
        let child = n.children@[b - 1];
        if child.leaves().len() > 0 {
            let cut = parted(n, b, before, local);
            let moved = shifted(n, b, cut, local);
            crate::balance::lemma_element_extends(child, moved);
            assert(crate::balance::extends(before, cut)) by {
                assert(before.items.take(before.items.len() as int) =~= before.items);
                if cut != before {
                    assert(cut.items.take(before.items.len() as int) =~= before.items);
                }
            }
            assert(crate::balance::extends(cut, moved)) by {
                assert(cut.items.take(cut.items.len() as int) =~= cut.items);
                if moved != cut {
                    assert(moved.items.take(cut.items.len() as int) =~= cut.items);
                }
            }
            crate::balance::lemma_extends_trans(before, cut, moved);
            crate::balance::lemma_extends_trans(before, moved, after_children(n, b, w).0);
            crate::balance::lemma_extends_trans(
                after_children(n, a, w).0,
                before,
                after_children(n, b, w).0,
            );
        }
    } else {
        let x = after_children(n, a, w).0;
        assert(x.items.take(x.items.len() as int) =~= x.items);
    }
}

/// Spaces once asked for in front of a token are given, where nothing
/// else is asked for behind them.
pub proof fn lemma_space_sticks(page: Page, s: nat, k: nat)
    requires
        ordered(page.items, page.widths.len()),
        page.run(s).gap is Inline,
        page.run(s).leads.len() >= 1,
        forall|j: int|
            page.run(s).next <= j < page.items.len() && (#[trigger] page.items[j]).0 == page.run(
                s,
            ).leads.len() ==> !crate::attachment::spacing(page.items[j].1),
    ensures
        ({
            let t = page.run(s).leads.len() as int;
            let d = page.run(s + k);
            (d.leads.len() == t && d.gap == page.run(s).gap && d.next >= page.run(s).next) || (
            d.leads.len() > t && d.leads[t] == Lead::Inline(page.run(s).gap->Inline_0))
        }),
    decreases k,
{
    if k > 0 {
        lemma_space_sticks(page, s, (k - 1) as nat);
        let c = page.run((s + k - 1) as nat);
        assert(page.run(s + k) == page.step(c));
        lemma_run_attentive(page, (s + k - 1) as nat, Marker::Break(Break::Hard));
        lemma_run_progress(page, (s + k - 1) as nat);
        let t = page.run(s).leads.len();
        if c.leads.len() == t && page.due(c.next, t) {
            assert(page.items[c.next as int].0 >= t);
            assert(page.items[c.next as int].0 == t);
        }
    }
}

/// The walk over the element `e` from `w0` comes to the node `n` in the
/// state `w`.
pub open spec fn comes_to(e: Element, w0: Walk, n: SyntaxNode, w: Walk) -> bool
    decreases e, 0nat, 0nat,
{
    match e {
        Element::Token(_) => false,
        Element::Node(m) => node_comes_to(m, w0, n, w),
    }
}

/// The walk over the node `m` from `w0` comes to the node `n` in the state
/// `w`: `m` is `n`, or the walk over one of its children comes to `n`.
pub open spec fn node_comes_to(m: SyntaxNode, w0: Walk, n: SyntaxNode, w: Walk) -> bool
    decreases m, 1nat, m.children@.len(),
{
    (m == n && w0 == w) || children_come_to(m, m.children@.len(), inside_of(m, w0), n, w)
}

/// The walk inside the node `m` entered at `w0`, in front of its children.
pub open spec fn inside_of(m: SyntaxNode, w0: Walk) -> Walk {
    if grouped(m.kind) {
        w0.place(Marker::Group(w0.items.len() as usize))
    } else {
        w0
    }
}

/// The walk over one of the first `k` children of `m`, started inside `m`
/// at `w0`, comes to the node `n` in the state `w`.
pub open spec fn children_come_to(m: SyntaxNode, k: nat, w0: Walk, n: SyntaxNode, w: Walk) -> bool
    decreases m, 0nat, k,
{
    if k == 0 || k > m.children@.len() {
        false
    } else {
        let (before, local) = after_children(m, (k - 1) as nat, w0);
        let child = m.children@[k - 1];
        children_come_to(m, (k - 1) as nat, w0, n, w) || (child.leaves().len() > 0 && comes_to(
            child,
            shifted(m, k, parted(m, k, before, local), local),
            n,
            w,
        ))
    }
}

/// What holds of a node to which the walk over an element comes: the walk
/// over the node is part of the walk over the element, and the groups open
/// in front of the node were opened in front of it.
pub open spec fn lies_in(n: SyntaxNode, w: Walk, end: Walk) -> bool {
    &&& leads(after_node(n, w).items, end.items)
    &&& after_node(n, w).tokens.len() <= end.tokens.len()
    &&& ids_below(open_groups(w.items), w.items.len())
    &&& in_front(w)
}

/// Every marker of the walk stands in front of a token that the walk has
/// passed, or in front of the next one.
#[verifier::opaque]
pub open spec fn in_front(w: Walk) -> bool {
    forall|j: int| 0 <= j < w.items.len() ==> (#[trigger] w.items[j]).0 <= w.tokens.len()
}

/// A walk that has placed no marker.
pub proof fn lemma_in_front_start(w: Walk)
    requires
        w.items.len() == 0,
    ensures
        in_front(w),
{
    reveal(in_front);
}

/// A marker is placed in front of the next token.
pub proof fn lemma_in_front_place(w: Walk, m: Marker)
    requires
        in_front(w),
        w.tokens.len() <= usize::MAX,
    ensures
        in_front(w.place(m)),
{
    reveal(in_front);
}

/// Markers placed in token order, in front of tokens passed, stand in
/// front of tokens passed.
pub proof fn lemma_in_front_steady(w0: Walk, w1: Walk, lift: int, floor: int)
    requires
        in_front(w0),
        steady(w0, w1, lift, floor),
    ensures
        in_front(w1),
{
    reveal(in_front);
    assert forall|j: int| 0 <= j < w1.items.len() implies (#[trigger] w1.items[j]).0
        <= w1.tokens.len() by {
        if j < w0.items.len() {
            assert(w1.items.take(w0.items.len() as int)[j] == w0.items[j]);
        }
    }
}

/// A node to which the walk over an element comes lies in that walk.
pub proof fn lemma_comes_to(e: Element, w0: Walk, n: SyntaxNode, w: Walk)
    requires
        comes_to(e, w0, n, w),
        after_element(e, w0).tokens.len() <= usize::MAX,
        after_element(e, w0).items.len() <= usize::MAX,
        ids_below(open_groups(w0.items), w0.items.len()),
        in_front(w0),
    ensures
        lies_in(n, w, after_element(e, w0)),
    decreases e, 0nat, 0nat,
{
    match e {
        Element::Token(_) => {},
        Element::Node(m) => {
            lemma_node_comes_to(m, w0, n, w);
        },
    }
}

/// A node to which the walk over a node comes lies in that walk.
pub proof fn lemma_node_comes_to(m: SyntaxNode, w0: Walk, n: SyntaxNode, w: Walk)
    requires
        node_comes_to(m, w0, n, w),
        after_node(m, w0).tokens.len() <= usize::MAX,
        after_node(m, w0).items.len() <= usize::MAX,
        ids_below(open_groups(w0.items), w0.items.len()),
        in_front(w0),
    ensures
        lies_in(n, w, after_node(m, w0)),
    decreases m, 1nat, m.children@.len(),
{
    let done = after_node(m, w0);
    if m == n && w0 == w {
        assert(done.items.take(done.items.len() as int) =~= done.items);
    } else {
        let id = w0.items.len() as usize;
        let stack = open_groups(w0.items);
        let opened = inside_of(m, w0);
        let (walked, local) = after_children(m, m.children@.len(), opened);
        let closed = if local.inside {
            walked.place(shift_to(false))
        } else {
            walked
        };
        lemma_place_extends(w0, Marker::Group(id));
        lemma_children_extends(m, m.children@.len(), opened);
        lemma_place_extends(walked, shift_to(false));
        lemma_place_extends(closed, Marker::Group(id));
        assert(walked.items.take(walked.items.len() as int) =~= walked.items);
        assert(closed.items.take(closed.items.len() as int) =~= closed.items);
        lemma_extends_trans(walked, closed, done);
        if grouped(m.kind) {
            lemma_in_front_place(w0, Marker::Group(id));
            lemma_steady_place(w0, Marker::Group(id));
            assert(open_groups(opened.items) == stack.push(id));
            assert forall|i: int| 0 <= i < stack.push(id).len() implies (#[trigger] stack.push(
                id,
            )[i]) < opened.items.len() by {
                if i < stack.len() {
                    assert(stack[i] < w0.items.len());
                }
            }
        }
        lemma_children_come_to(m, m.children@.len(), opened, n, w);
        crate::stability::lemma_extends_leads(walked, done, done.items);
        assert forall|j: int| 0 <= j < after_node(n, w).items.len() implies after_node(
            n,
            w,
        ).items[j] == done.items[j] by {
            assert(walked.items[j] == done.items[j]);
        }
    }
}

/// A node to which the walk over the children of a node comes lies in
/// that walk.
pub proof fn lemma_children_come_to(m: SyntaxNode, k: nat, w0: Walk, n: SyntaxNode, w: Walk)
    requires
        k <= m.children@.len(),
        children_come_to(m, k, w0, n, w),
        after_children(m, k, w0).0.tokens.len() <= usize::MAX,
        after_children(m, k, w0).0.items.len() <= usize::MAX,
        ids_below(open_groups(w0.items), w0.items.len()),
        in_front(w0),
    ensures
        lies_in(n, w, after_children(m, k, w0).0),
    decreases m, 0nat, k,
{
    let done = after_children(m, k, w0).0;
    let (before, local) = after_children(m, (k - 1) as nat, w0);
    let child = m.children@[k - 1];
    lemma_children_lead(m, (k - 1) as nat, k, w0);
    lemma_children_extends(m, (k - 1) as nat, w0);
    lemma_children_extends(m, k, w0);
    if children_come_to(m, (k - 1) as nat, w0, n, w) {
        lemma_children_come_to(m, (k - 1) as nat, w0, n, w);
        crate::stability::lemma_extends_leads(before, done, done.items);
        assert forall|j: int| 0 <= j < after_node(n, w).items.len() implies after_node(
            n,
            w,
        ).items[j] == done.items[j] by {
            assert(before.items[j] == done.items[j]);
        }
        assert(m.leaves_upto(k) == m.leaves_upto((k - 1) as nat) + child.leaves()
            || child.leaves().len() == 0);
    } else {
        let first = child.leaves()[0];
        let cut = parted(m, k, before, local);
        let moved = shifted(m, k, cut, local);
        lemma_element_extends(child, moved);
        assert(extends(before, cut)) by {
            assert(before.items.take(before.items.len() as int) =~= before.items);
            if cut != before {
                assert(cut.items.take(before.items.len() as int) =~= before.items);
            }
        }
        assert(extends(cut, moved)) by {
            assert(cut.items.take(cut.items.len() as int) =~= cut.items);
            if moved != cut {
                assert(moved.items.take(cut.items.len() as int) =~= cut.items);
            }
        }
        lemma_extends_trans(before, cut, moved);
        lemma_children_steady(m, (k - 1) as nat, w0);
        lemma_in_front_steady(
            w0,
            before,
            if local.inside {
                1
            } else {
                0
            },
            0,
        );
        match local.left {
            Some(left) if before.tokens.len() > 0 => {
                let x = boundary_marker(
                    separator(m.kind, left, child.kind(), first.kind, local.lead),
                    before.tokens.last(),
                    first,
                );
                lemma_steady_place_if(before, x);
                if x is Some {
                    lemma_in_front_place(before, x->Some_0);
                }
            },
            _ => {},
        }
        let inside = child_inside(m.kind, child.kind(), local.inside);
        if inside != local.inside {
            lemma_steady_place(cut, shift_to(inside));
            lemma_in_front_place(cut, shift_to(inside));
        }
        assert(open_groups(moved.items) == open_groups(w0.items));
        lemma_comes_to(child, moved, n, w);
    }
}

/// Under balanced indentation the level of the printer is the level of the
/// markers read.
pub proof fn lemma_run_indent(page: Page, steps: nat)
    requires
        indent_balanced(page.items),
    ensures
        page.run(steps).next <= page.items.len(),
        page.run(steps).indent == indent_level(page.items.take(page.run(steps).next as int)),
    decreases steps,
{
    if steps > 0 {
        let c = page.run((steps - 1) as nat);
        lemma_run_indent(page, (steps - 1) as nat);
        if page.due(c.next, c.leads.len()) {
            let k = c.next as int;
            assert(page.items.take(k + 1).drop_last() =~= page.items.take(k));
            assert(indent_level(page.items.take(k + 1)) >= 0);
        }
    } else {
        assert(page.items.take(0) =~= Seq::<(usize, Marker)>::empty());
    }
}

/// The markers from `k` on stand in front of tokens behind token `t`, and
/// those in front of `k` do not.
pub open spec fn splits(items: Seq<(usize, Marker)>, t: int, k: int) -> bool {
    &&& 0 <= k <= items.len()
    &&& forall|j: int| 0 <= j < k ==> (#[trigger] items[j]).0 <= t
    &&& forall|j: int| k <= j < items.len() ==> (#[trigger] items[j]).0 > t
}

/// Markers in token order are split at some place between the markers in
/// front of token `t` and the markers behind it.
pub proof fn lemma_split(items: Seq<(usize, Marker)>, n: nat, t: int, lo: int, hi: int) -> (k: int)
    requires
        ordered(items, n),
        0 <= lo <= hi <= items.len(),
        forall|j: int| 0 <= j < lo ==> (#[trigger] items[j]).0 <= t,
        forall|j: int| hi <= j < items.len() ==> (#[trigger] items[j]).0 > t,
    ensures
        lo <= k <= hi,
        splits(items, t, k),
    decreases hi - lo,
{
    if lo == hi {
        lo
    } else if items[lo].0 <= t {
        lemma_split(items, n, t, lo + 1, hi)
    } else {
        assert forall|j: int| lo <= j < items.len() implies (#[trigger] items[j]).0 > t by {
            assert(items[lo].0 <= items[j].0);
        }
        lo
    }
}

/// The printer places token `t` when it has read the markers in front of
/// it.
pub proof fn lemma_state_at(page: Page, k: int, t: int)
    requires
        ordered(page.items, page.widths.len()),
        splits(page.items, t, k),
        0 <= t < page.widths.len(),
    ensures
        page.run((k + t) as nat).next == k,
        page.run((k + t) as nat).leads.len() == t,
        !page.due(k as nat, t as nat),
        page.run((k + t + 1) as nat).leads.len() == t + 1,
        page.run((k + t + 1) as nat).leads[t] == page.run((k + t) as nat).lead(),
{
    let s = (k + t) as nat;
    let c = page.run(s);
    lemma_run_progress(page, s);
    lemma_run_attentive(page, s, Marker::Break(Break::Hard));
    if c.next < k {
        assert(page.items[c.next as int].0 >= c.leads.len());
    } else if c.next > k {
        assert(page.items[k].0 <= c.leads.len());
    }
    assert(page.run(s + 1) == page.step(c));
}

/// The level of a plain equation: behind the step that indents the right
/// side the markers stand one level above the level in front of the
/// equation, and no marker of the right side falls under that.
pub proof fn lemma_equation_level(n: SyntaxNode, w: Walk, items: Seq<(usize, Marker)>, k: int)
    requires
        plain_equation(n),
        leads(after_node(n, w).items, items),
        after_node(n, w).tokens.len() <= usize::MAX,
        after_node(n, w).items.len() <= usize::MAX,
        ids_below(open_groups(w.items), w.items.len()),
        behind_sign(n, w).items.len() + 2 <= k,
        k <= after_children(n, 3, w.place(Marker::Group(w.items.len() as usize))).0.items.len(),
    ensures
        indent_level(items.take(k)) >= indent_level(w.items) + 1,
        indent_level(items.take(w.items.len() as int)) == indent_level(w.items),
{
    let id = w.items.len() as usize;
    let opened = w.place(Marker::Group(id));
    let sign = behind_sign(n, w);
    let soft = sign.place(Marker::Break(Break::Soft));
    let broken = soft.place(Marker::IndentDelta(Shift::Push));
    let three = after_children(n, 3, opened).0;
    reveal(grouped);
    lemma_equation_marks(n, w);
    lemma_walks_lead(n, w);
    lemma_equation_tokens(n, w);
    lemma_equation_groups(n, w);
    lemma_children_extends(n, 2, opened);
    lemma_children_extends(n, 3, opened);
    lemma_steady_place(w, Marker::Group(id));
    lemma_children_steady(n, 2, opened);
    lemma_steady_place(sign, Marker::Break(Break::Soft));
    lemma_steady_place(soft, Marker::IndentDelta(Shift::Push));
    lemma_element_extends(n.children@[2], broken);
    assert(open_groups(broken.items) == open_groups(sign.items));
    assert(ids_below(open_groups(broken.items), broken.items.len())) by {
        assert forall|i: int| 0 <= i < open_groups(broken.items).len() implies (
        #[trigger] open_groups(broken.items)[i]) < broken.items.len() by {
            if i < open_groups(w.items).len() {
                assert(open_groups(w.items)[i] < w.items.len());
            }
        }
    }
    lemma_children_extends(n, n.children@.len(), opened);
    lemma_node_extends(n, w);
    n.lemma_leaves_prefix(3, n.children@.len());
    assert(three.tokens.len() <= after_node(n, w).tokens.len());
    assert(three.items.len() <= after_node(n, w).items.len());
    lemma_element_steady(n.children@[2], broken);
    assert(items.take(k) =~= three.items.take(k));
    assert(items.take(w.items.len() as int) =~= w.items);
}

/// Behind the right side of a plain equation stands the marker that closes
/// its group, in front of a token behind the first token of the right
/// side.
pub proof fn lemma_right_side_closes(n: SyntaxNode, w: Walk)
    requires
        plain_equation(n),
        after_node(n, w).tokens.len() <= usize::MAX,
    ensures
        ({
            let three = after_children(n, 3, w.place(Marker::Group(w.items.len() as usize))).0;
            &&& three.items.len() >= behind_sign(n, w).items.len() + 3
            &&& three.items.last().0 > behind_sign(n, w).tokens.len()
        }),
{
    let id = w.items.len() as usize;
    let opened = w.place(Marker::Group(id));
    let sign = behind_sign(n, w);
    let broken = sign.place(Marker::Break(Break::Soft)).place(Marker::IndentDelta(Shift::Push));
    let right = n.children@[2]->Node_0;
    reveal(grouped);
    lemma_equation_marks(n, w);
    lemma_equation_tokens(n, w);
    lemma_element_extends(n.children@[2], broken);
    lemma_children_extends(n, 3, opened);
    lemma_children_extends(n, n.children@.len(), opened);
    lemma_node_extends(n, w);
    n.lemma_leaves_prefix(3, n.children@.len());
    let three = after_node(right, broken);
    let inner = broken.place(Marker::Group(broken.items.len() as usize));
    let (walked, local) = after_children(right, right.children@.len(), inner);
    let closed = if local.inside {
        walked.place(shift_to(false))
    } else {
        walked
    };
    lemma_children_extends(right, right.children@.len(), inner);
    assert(three == closed.place(Marker::Group(broken.items.len() as usize)));
    assert(closed.tokens.len() == three.tokens.len());
}

} // verus!
