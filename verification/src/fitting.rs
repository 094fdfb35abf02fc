//! Proof that a group which the printer lays out flat stays within the
//! maximum line width, and that a width which no line passes changes
//! nothing.

use vstd::prelude::*;
use crate::layout::{end_col, lemma_run_progress, Cursor, Lead, Page};
use crate::markers::{group_step, open_groups, ordered, Break, Marker};

verus! {

/// Inside a flat group every group is flat.
pub open spec fn nested(groups: Seq<(usize, bool)>) -> bool {
    forall|a: int, b: int| 0 <= a <= b < groups.len() && groups[a].1 ==> groups[b].1
}

/// The identifiers of the innermost groups that are flat, outermost first.
pub open spec fn flat_stack(groups: Seq<(usize, bool)>) -> Seq<usize>
    decreases groups.len(),
{
    if groups.len() == 0 || !groups.last().1 {
        Seq::empty()
    } else {
        flat_stack(groups.drop_last()).push(groups.last().0)
    }
}

/// In a flat group, what is left of the outermost flat group fits when it
/// is laid out flat from where the printer stands.
pub open spec fn within(page: Page, c: Cursor) -> bool {
    page.max_width is Some && c.in_flat() ==> page.flat_fits(
        c.next,
        c.leads.len(),
        flat_stack(c.groups),
        c.col,
        c.gap,
        c.indent,
        page.max_width.unwrap() as nat,
    )
}

/// The column of the state is the column behind the last token placed, and
/// every token placed in a flat group ends within the maximum width.
pub open spec fn on_record(page: Page, c: Cursor) -> bool {
    &&& c.col == end_col(c.leads, page.widths, page.indent_width, c.leads.len() - 1)
    &&& page.max_width is Some ==> forall|i: int|
        0 <= i < c.leads.len() && c.kept[i] ==> #[trigger] end_col(
            c.leads,
            page.widths,
            page.indent_width,
            i,
        ) <= page.max_width.unwrap()
}

/// What holds of the printer between any two steps.
pub open spec fn sound(page: Page, c: Cursor) -> bool {
    &&& c.next <= page.items.len()
    &&& c.leads.len() <= page.widths.len()
    &&& c.kept.len() == c.leads.len()
    &&& c.indent <= c.next
    &&& nested(c.groups)
    &&& within(page, c)
    &&& on_record(page, c)
}

/// The column behind a token depends only on the whitespace up to it.
pub proof fn lemma_end_col_prefix(
    a: Seq<Lead>,
    b: Seq<Lead>,
    widths: Seq<nat>,
    indent_width: usize,
    i: int,
)
    requires
        i < a.len() <= b.len(),
        forall|k: int| 0 <= k < a.len() ==> a[k] == b[k],
    ensures
        end_col(a, widths, indent_width, i) == end_col(b, widths, indent_width, i),
    decreases i,
{
    if 0 <= i && i < widths.len() {
        if i > 0 {
            lemma_end_col_prefix(a, b, widths, indent_width, i - 1);
        }
    }
}

/// The innermost flat groups after a group is opened.
pub proof fn lemma_flat_stack_push(groups: Seq<(usize, bool)>, id: usize, flat: bool)
    ensures
        flat_stack(groups.push((id, flat))) == if flat {
            flat_stack(groups).push(id)
        } else {
            Seq::empty()
        },
{
    assert(groups.push((id, flat)).drop_last() =~= groups);
}

/// The innermost flat groups where the innermost group is flat.
pub proof fn lemma_flat_stack_top(groups: Seq<(usize, bool)>)
    requires
        groups.len() > 0,
        groups.last().1,
    ensures
        flat_stack(groups).len() > 0,
        flat_stack(groups).last() == groups.last().0,
        flat_stack(groups).drop_last() =~= flat_stack(groups.drop_last()),
{
}

/// One step keeps the printer sound.
pub proof fn lemma_step_sound(page: Page, c: Cursor)
    requires
        sound(page, c),
        page.items.len() <= usize::MAX,
    ensures
        sound(page, page.step(c)),
{
    let d = page.step(c);
    let i = c.leads.len();
    let stack = flat_stack(c.groups);
    if page.due(c.next, i) {
        let m = page.items[c.next as int].1;
        assert(d.leads == c.leads && d.kept == c.kept && d.col == c.col);
        match m {
            Marker::Group(id) => {
                if c.groups.len() > 0 && c.groups.last().0 == id {
                    assert(nested(d.groups));
                    if c.groups.last().1 {
                        lemma_flat_stack_top(c.groups);
                    } else {
                        assert(!d.in_flat()) by {
                            if d.groups.len() > 0 {
                                assert(d.groups.last() == c.groups[c.groups.len() - 2]);
                            }
                        }
                    }
                } else {
                    let flat = c.in_flat() || page.fits(c, id);
                    lemma_flat_stack_push(c.groups, id, flat);
                    assert(nested(d.groups)) by {
                        assert forall|a: int, b: int|
                            0 <= a <= b < d.groups.len() && d.groups[a].1 implies d.groups[b].1 by {
                            if b == c.groups.len() {
                                if a < b {
                                    assert(c.groups[a].1);
                                    assert(c.groups[c.groups.len() - 1].1);
                                }
                            } else {
                                assert(c.groups[a].1 ==> c.groups[b].1);
                            }
                        }
                    }
                    if c.in_flat() {
                        lemma_flat_stack_top(c.groups);
                    } else {
                        assert(stack =~= Seq::<usize>::empty());
                        if flat {
                            assert(flat_stack(d.groups) =~= seq![id]);
                        }
                    }
                }
            },
            _ => {
                if c.in_flat() {
                    lemma_flat_stack_top(c.groups);
                }
            },
        }
    } else if i < page.widths.len() {
        assert(d.leads.len() == i + 1);
        assert forall|k: int| 0 <= k < i implies c.leads[k] == d.leads[k] by {}
        if i > 0 {
            lemma_end_col_prefix(c.leads, d.leads, page.widths, page.indent_width, i - 1);
        }
        assert(page.line_indent(c.next, i, c.indent) == c.indent);
        assert(page.start_col(c) == page.place(i, c.col, c.gap, c.indent));
        assert(c.indent as usize == c.indent);
        assert(d.col == end_col(d.leads, page.widths, page.indent_width, i as int));
        if c.in_flat() {
            lemma_flat_stack_top(c.groups);
        }
        if page.max_width is Some {
            let w = page.max_width.unwrap();
            assert forall|k: int| 0 <= k < d.leads.len() && d.kept[k] implies #[trigger] end_col(
                d.leads,
                page.widths,
                page.indent_width,
                k,
            ) <= w by {
                if k < i {
                    lemma_end_col_prefix(c.leads, d.leads, page.widths, page.indent_width, k);
                    assert(c.kept[k]);
                }
            }
        }
    }
}

/// The printer is sound after any number of steps.
pub proof fn lemma_run_sound(page: Page, steps: nat)
    requires
        page.items.len() <= usize::MAX,
    ensures
        sound(page, page.run(steps)),
    decreases steps,
{
    if steps > 0 {
        lemma_run_sound(page, (steps - 1) as nat);
        lemma_step_sound(page, page.run((steps - 1) as nat));
    } else {
        assert(flat_stack(page.start().groups) =~= Seq::<usize>::empty());
    }
}

/// The same page without a maximum width.
pub open spec fn free(page: Page) -> Page {
    Page { max_width: None, ..page }
}

/// Whitespace once decided stays as it is.
pub proof fn lemma_leads_kept(page: Page, a: nat, b: nat)
    requires
        a <= b,
    ensures
        page.run(a).leads.len() <= page.run(b).leads.len(),
        forall|i: int|
            0 <= i < page.run(a).leads.len() ==> page.run(b).leads[i] == page.run(a).leads[i],
    decreases b,
{
    if a < b {
        lemma_leads_kept(page, a, (b - 1) as nat);
        lemma_run_progress(page, (b - 1) as nat);
        lemma_run_progress(page, a);
    }
}

/// Without a maximum width every group is flat.
pub proof fn lemma_free_groups_flat(page: Page, steps: nat)
    requires
        page.max_width is None,
    ensures
        forall|g: int| 0 <= g < page.run(steps).groups.len() ==> (#[trigger] page.run(
            steps,
        ).groups[g]).1,
    decreases steps,
{
    if steps > 0 {
        lemma_free_groups_flat(page, (steps - 1) as nat);
    }
}

/// No token of the layout without a maximum width ends beyond `w`.
pub open spec fn roomy(page: Page, w: nat) -> bool {
    forall|i: int|
        0 <= i < page.widths.len() ==> #[trigger] end_col(
            free(page).layout(),
            page.widths,
            page.indent_width,
            i,
        ) <= w
}

/// Where no token of the layout without a maximum width ends beyond `w`,
/// whatever group opens fits within `w`: laid out flat, it is laid out as
/// without a maximum width.
pub proof fn lemma_roomy_fits(page: Page, w: nat, steps: nat, stack: Seq<usize>)
    requires
        page.items.len() <= usize::MAX,
        roomy(page, w),
    ensures
        page.flat_fits(
            free(page).run(steps).next,
            free(page).run(steps).leads.len(),
            stack,
            free(page).run(steps).col,
            free(page).run(steps).gap,
            free(page).run(steps).indent,
            w,
        ),
    decreases page.steps() + 1 - steps,
{
    let p = free(page);
    let c = p.run(steps);
    let d = p.run(steps + 1);
    let i = c.leads.len();
    assert(d == p.step(c));
    lemma_run_progress(p, steps);
    lemma_run_sound(p, steps);
    lemma_run_sound(p, steps + 1);
    if stack.len() == 0 {
    } else if page.due(c.next, i) {
        assert(p.due(c.next, i));
        assert(steps < page.steps());
        match page.items[c.next as int].1 {
            Marker::Group(id) => {
                if stack.last() == id {
                    lemma_roomy_fits(page, w, steps + 1, stack.drop_last());
                } else {
                    lemma_roomy_fits(page, w, steps + 1, stack.push(id));
                }
            },
            _ => {
                lemma_roomy_fits(page, w, steps + 1, stack);
            },
        }
    } else if i < page.widths.len() {
        assert(steps < page.steps());
        assert(p.line_indent(c.next, i, c.indent) == c.indent);
        assert(p.start_col(c) == page.place(i, c.col, c.gap, c.indent));
        lemma_leads_kept(p, steps + 1, p.steps());
        lemma_end_col_prefix(d.leads, p.layout(), page.widths, page.indent_width, i as int);
        assert(d.col == end_col(d.leads, page.widths, page.indent_width, i as int));
        lemma_roomy_fits(page, w, steps + 1, stack);
    }
}

/// Where no token of the layout without a maximum width ends beyond the
/// maximum width, the printer runs as it runs without a maximum width.
pub proof fn lemma_roomy_run(page: Page, steps: nat)
    requires
        page.items.len() <= usize::MAX,
        page.max_width is Some,
        roomy(page, page.max_width.unwrap() as nat),
    ensures
        page.run(steps) == free(page).run(steps),
    decreases steps,
{
    if steps > 0 {
        let p = free(page);
        let c = p.run((steps - 1) as nat);
        lemma_roomy_run(page, (steps - 1) as nat);
        lemma_free_groups_flat(p, (steps - 1) as nat);
        let i = c.leads.len();
        if page.due(c.next, i) {
            match page.items[c.next as int].1 {
                Marker::Group(id) => {
                    lemma_roomy_fits(page, page.max_width.unwrap() as nat, steps, seq![id]);
                    assert(p.run(steps) == p.step(c));
                },
                _ => {
                    if c.groups.len() > 0 {
                        assert(c.groups[c.groups.len() - 1].1);
                    }
                },
            }
        }
        assert(page.step(c) == p.step(c));
    }
}

/// The identifiers of the groups.
pub open spec fn ids_of(groups: Seq<(usize, bool)>) -> Seq<usize> {
    Seq::new(groups.len(), |k: int| groups[k].0)
}

/// A soft break that stands in a group stands in front of token `t`.
pub open spec fn grouped_soft_at(items: Seq<(usize, Marker)>, t: int) -> bool {
    exists|j: int| #[trigger] grouped_soft(items, j) && items[j].0 == t
}

/// Marker `j` is a soft break that stands in a group.
pub open spec fn grouped_soft(items: Seq<(usize, Marker)>, j: int) -> bool {
    &&& 0 <= j < items.len()
    &&& items[j].1 == Marker::Break(Break::Soft)
    &&& open_groups(items.take(j)).len() > 0
}

/// The tokens from `t - 1` to `i` stand on one line: no line is broken in
/// front of the tokens from `t` to `i`.
pub open spec fn joined(leads: Seq<Lead>, t: int, i: int) -> bool {
    forall|k: int| t <= k <= i && 0 <= k < leads.len() ==> (#[trigger] leads[k]) is Inline
}

/// No soft break that stands in a group stands in front of the tokens
/// behind token `s` up to token `i`.
pub open spec fn no_break_between(items: Seq<(usize, Marker)>, s: int, i: int) -> bool {
    forall|t: int| s < t <= i ==> !#[trigger] grouped_soft_at(items, t)
}

/// Token `i` stands on the line of token `s`, which starts the line or has
/// a flat group in front of it, and no soft break that stands in a group
/// stands between them.
pub open spec fn anchored_at(
    items: Seq<(usize, Marker)>,
    leads: Seq<Lead>,
    eased: Seq<bool>,
    s: int,
    i: int,
) -> bool {
    &&& 0 <= s <= i < leads.len()
    &&& eased.len() == leads.len()
    &&& joined(leads, s + 1, i)
    &&& s == 0 || leads[s] is Line || eased[s]
    &&& no_break_between(items, s, i)
}

/// No break could be taken in front of token `i`: it stands on its line
/// behind the start of the line or behind a flat group, and from there on
/// no soft break of a group stands in front of a token.
pub open spec fn behind(
    items: Seq<(usize, Marker)>,
    leads: Seq<Lead>,
    eased: Seq<bool>,
    i: int,
) -> bool {
    exists|s: int| #[trigger] anchored_at(items, leads, eased, s, i)
}

/// What holds of the printer between any two steps on markers in token
/// order, under a maximum width: every token placed stands in a flat group,
/// or no break could be taken in front of it.
pub open spec fn mindful(page: Page, c: Cursor) -> bool {
    let i = c.leads.len();
    let n = page.widths.len();
    &&& forall|j: int| 0 <= j < c.next && j < page.items.len() && i < n ==> (#[trigger] page.items[j]).0 <= i
    &&& forall|j: int| c.next <= j < page.items.len() ==> (#[trigger] page.items[j]).0 >= i
    &&& c.kept.len() == i && c.eased.len() == i
    &&& ids_of(c.groups) == open_groups(page.items.take(c.next as int))
    &&& c.in_flat() ==> c.touched
    &&& if i == 0 {
        c.since == 0
    } else {
        &&& c.since < i
        &&& c.since == 0 || c.leads[c.since as int] is Line || c.eased[c.since as int]
        &&& forall|k: int| c.since < k < i ==> (#[trigger] c.leads[k]) is Inline
    }
    &&& !c.touched && !(c.gap is Line) && i < n ==> forall|j: int|
        0 <= j < c.next && #[trigger] grouped_soft(page.items, j) ==> page.items[j].0 <= c.since
    &&& forall|k: int| 0 <= k < i ==> #[trigger] c.kept[k] || behind(page.items, c.leads, c.eased, k)
}

/// Whitespace decided later changes nothing in front of a token placed.
pub proof fn lemma_behind_prefix(
    items: Seq<(usize, Marker)>,
    a: Seq<Lead>,
    b: Seq<Lead>,
    e: Seq<bool>,
    f: Seq<bool>,
    i: int,
)
    requires
        0 <= i < a.len() <= b.len(),
        e.len() == a.len(),
        f.len() == b.len(),
        forall|k: int| 0 <= k < a.len() ==> a[k] == b[k] && e[k] == f[k],
        behind(items, a, e, i),
    ensures
        behind(items, b, f, i),
{
    let s = choose|s: int| #[trigger] anchored_at(items, a, e, s, i);
    assert(joined(b, s + 1, i)) by {
        assert forall|k: int| s + 1 <= k <= i && 0 <= k < b.len() implies (#[trigger] b[k]) is Inline by {
            assert(a[k] is Inline);
        }
    }
    assert(anchored_at(items, b, f, s, i));
}

/// The groups that are open are the groups that the markers read have
/// opened.
pub proof fn lemma_groups_read(items: Seq<(usize, Marker)>, next: int, groups: Seq<(usize, bool)>)
    requires
        0 <= next < items.len(),
        ids_of(groups) == open_groups(items.take(next)),
    ensures
        open_groups(items.take(next + 1)) == group_step(ids_of(groups), items[next].1),
        ids_of(groups).len() == groups.len(),
        groups.len() > 0 ==> ids_of(groups).last() == groups.last().0 && ids_of(
            groups.drop_last(),
        ) == ids_of(groups).drop_last(),
        forall|id: usize, flat: bool|
            ids_of(#[trigger] groups.push((id, flat))) == ids_of(groups).push(id),
{
    assert(items.take(next + 1).drop_last() =~= items.take(next));
    if groups.len() > 0 {
        assert(ids_of(groups.drop_last()) =~= ids_of(groups).drop_last());
    }
    assert forall|id: usize, flat: bool| ids_of(#[trigger] groups.push((id, flat))) == ids_of(
        groups,
    ).push(id) by {
        assert(ids_of(groups.push((id, flat))) =~= ids_of(groups).push(id));
    }
}

/// One step keeps the printer mindful.
pub proof fn lemma_step_mindful(page: Page, c: Cursor)
    requires
        page.max_width is Some,
        ordered(page.items, page.widths.len()),
        c.next <= page.items.len(),
        c.leads.len() <= page.widths.len(),
        nested(c.groups),
        mindful(page, c),
    ensures
        mindful(page, page.step(c)),
{
    let d = page.step(c);
    let i = c.leads.len();
    let n = page.widths.len();
    let items = page.items;
    if page.due(c.next, i) {
        let m = items[c.next as int].1;
        assert(d.leads == c.leads && d.kept == c.kept && d.eased == c.eased && d.since == c.since);
        lemma_groups_read(items, c.next as int, c.groups);
        if i < n {
            assert(items[c.next as int].0 == i);
        }
        match m {
            Marker::Group(id) => {
                if c.groups.len() > 0 && c.groups.last().0 == id {
                    if d.in_flat() {
                        assert(d.groups.last() == c.groups[c.groups.len() - 2]);
                        assert(c.groups[c.groups.len() - 2].1 ==> c.groups[c.groups.len() - 1].1);
                    }
                }
            },
            _ => {},
        }
        if !d.touched && !(d.gap is Line) && i < n {
            assert forall|j: int| 0 <= j < d.next && #[trigger] grouped_soft(
                items,
                j,
            ) implies items[j].0 <= d.since by {
                if j == c.next {
                    assert(c.groups.len() > 0);
                    assert(m == Marker::Break(Break::Soft));
                }
            }
        }
    } else if i < n {
        let lead = c.lead();
        assert(d.next == c.next);
        assert(d.leads.len() == i + 1);
        assert forall|j: int| c.next <= j < items.len() implies (#[trigger] items[j]).0 >= i + 1 by {
            assert(items[c.next as int].0 <= items[j].0);
        }
        assert forall|k: int| 0 <= k < i + 1 implies #[trigger] d.kept[k] || behind(
            items,
            d.leads,
            d.eased,
            k,
        ) by {
            if k < i {
                if !c.kept[k] {
                    lemma_behind_prefix(items, c.leads, d.leads, c.eased, d.eased, k);
                }
            } else if !c.in_flat() {
                let s = d.since as int;
                assert(joined(d.leads, s + 1, i as int));
                assert(no_break_between(items, s, i as int)) by {
                    assert forall|t: int| s < t <= i implies !#[trigger] grouped_soft_at(
                        items,
                        t,
                    ) by {
                        if grouped_soft_at(items, t) {
                            let j = choose|j: int| #[trigger] grouped_soft(items, j) && items[j].0 == t;
                            assert(j < c.next);
                            assert(items[j].0 <= c.since);
                        }
                    }
                }
                assert(anchored_at(items, d.leads, d.eased, s, i as int));
            }
        }
    }
}

/// The printer is mindful after any number of steps.
pub proof fn lemma_run_mindful(page: Page, steps: nat)
    requires
        page.max_width is Some,
        page.items.len() <= usize::MAX,
        ordered(page.items, page.widths.len()),
    ensures
        mindful(page, page.run(steps)),
    decreases steps,
{
    if steps > 0 {
        lemma_run_mindful(page, (steps - 1) as nat);
        lemma_run_sound(page, (steps - 1) as nat);
        lemma_run_progress(page, (steps - 1) as nat);
        lemma_step_mindful(page, page.run((steps - 1) as nat));
    } else {
        assert(page.items.take(0) =~= Seq::<(usize, Marker)>::empty());
        assert(ids_of(page.start().groups) =~= Seq::<usize>::empty());
    }
}

} // verus!
