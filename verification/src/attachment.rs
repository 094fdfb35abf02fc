//! Proof that the printer takes every forced line break and keeps what a
//! single space holds together.

use vstd::prelude::*;
use crate::layout::{asked, lemma_run_progress, Cursor, Gap, Lead, Page};
use crate::markers::{ordered, Break, Marker};

verus! {

/// The marker asks for whitespace: it is a break or a space.
pub open spec fn spacing(m: Marker) -> bool {
    m is Break || m is Space
}

/// The marker always starts a new line.
pub open spec fn forces_line(m: Marker) -> bool {
    m == Marker::Break(Break::Hard) || (m matches Marker::Break(Break::Blank(n)) && n >= 1)
}

/// Among the first `upto` markers, one in front of token `t` forces a new
/// line.
pub open spec fn line_forced(items: Seq<(usize, Marker)>, t: nat, upto: nat) -> bool {
    exists|j: int|
        0 <= j < upto && j < items.len() && (#[trigger] items[j]).0 == t && forces_line(items[j].1)
}

/// Among the first `upto` markers, one in front of token `t` asks for
/// whitespace.
pub open spec fn spaced(items: Seq<(usize, Marker)>, t: nat, upto: nat) -> bool {
    exists|j: int|
        0 <= j < upto && j < items.len() && (#[trigger] items[j]).0 == t && spacing(items[j].1)
}

/// Among the first `upto` markers, those in front of token `t` that ask for
/// whitespace are all the marker `m`.
pub open spec fn uniform(items: Seq<(usize, Marker)>, t: nat, upto: nat, m: Marker) -> bool {
    forall|j: int|
        0 <= j < upto && j < items.len() && (#[trigger] items[j]).0 == t && spacing(items[j].1)
            ==> items[j].1 == m
}

/// The whitespace in front of a token is of the kind that was asked for.
pub open spec fn agrees(lead: Lead, gap: Gap) -> bool {
    match gap {
        Gap::Inline(k) => lead == Lead::Inline(k),
        Gap::Line(b) => lead matches Lead::Line { blank, .. } && blank == b,
    }
}

/// The whitespace `lead` is what the markers in front of token `t` demand:
/// a new line where one of them forces it, and what `m` asks for where
/// `m` is all they ask.
pub open spec fn answers(items: Seq<(usize, Marker)>, t: nat, lead: Lead, m: Marker) -> bool {
    &&& line_forced(items, t, items.len()) ==> lead is Line
    &&& uniform(items, t, items.len(), m) && spaced(items, t, items.len()) ==> agrees(
        lead,
        asked(m, false),
    )
}

/// What holds of the printer between any two steps on markers in token
/// order: the markers read belong in front of the next token or an earlier
/// one, the others in front of the next token or a later one; the whitespace
/// asked for so far is what the markers read in front of the next token
/// demand; and so is the whitespace decided for every token placed but the
/// first.
pub open spec fn attentive(page: Page, c: Cursor, m: Marker) -> bool {
    let i = c.leads.len();
    let n = page.widths.len();
    &&& forall|j: int| 0 <= j < c.next && j < page.items.len() && i < n ==> (#[trigger] page.items[j]).0 <= i
    &&& forall|j: int| c.next <= j < page.items.len() ==> (#[trigger] page.items[j]).0 >= i
    &&& i < n ==> {
        &&& line_forced(page.items, i, c.next) ==> c.gap is Line
        &&& uniform(page.items, i, c.next, m) ==> c.gap == if spaced(page.items, i, c.next) {
            asked(m, false)
        } else {
            Gap::Inline(0)
        }
    }
    &&& forall|t: int| 1 <= t < i ==> answers(page.items, t as nat, #[trigger] c.leads[t], m)
}

/// One step keeps the printer attentive.
pub proof fn lemma_step_attentive(page: Page, c: Cursor, m0: Marker)
    requires
        ordered(page.items, page.widths.len()),
        c.next <= page.items.len(),
        c.leads.len() <= page.widths.len(),
        m0 != Marker::Break(Break::Soft),
        attentive(page, c, m0),
    ensures
        attentive(page, page.step(c), m0),
{
    let d = page.step(c);
    let i = c.leads.len();
    let n = page.widths.len();
    let items = page.items;
    if page.due(c.next, i) {
        let m = items[c.next as int].1;
        assert(d.leads == c.leads);
        if i < n {
            assert(items[c.next as int].0 == i);
            if line_forced(items, i, d.next) {
                let j = choose|j: int|
                    0 <= j < d.next && j < items.len() && (#[trigger] items[j]).0 == i
                        && forces_line(items[j].1);
                if j < c.next {
                    assert(line_forced(items, i, c.next));
                }
            }
            if uniform(items, i, d.next, m0) {
                assert(uniform(items, i, c.next, m0));
                if spaced(items, i, c.next) {
                    let j = choose|j: int|
                        0 <= j < c.next && j < items.len() && (#[trigger] items[j]).0 == i
                            && spacing(items[j].1);
                    assert(spaced(items, i, d.next));
                } else if spacing(m) {
                    assert(spaced(items, i, d.next));
                } else {
                    if spaced(items, i, d.next) {
                        let j = choose|j: int|
                            0 <= j < d.next && j < items.len() && (#[trigger] items[j]).0 == i
                                && spacing(items[j].1);
                        assert(j < c.next);
                        assert(false);
                    }
                }
            }
        }
    } else if i < n {
        assert(d.next == c.next);
        assert(d.leads.len() == i + 1);
        assert forall|j: int| c.next <= j < items.len() implies (#[trigger] items[j]).0 >= i + 1 by {
            assert(items[c.next as int].0 <= items[j].0);
        }
        if i + 1 < n {
            if line_forced(items, (i + 1) as nat, c.next) {
                let j = choose|j: int|
                    0 <= j < c.next && j < items.len() && (#[trigger] items[j]).0 == i + 1
                        && forces_line(items[j].1);
                assert(false);
            }
            if spaced(items, (i + 1) as nat, c.next) {
                let j = choose|j: int|
                    0 <= j < c.next && j < items.len() && (#[trigger] items[j]).0 == i + 1
                        && spacing(items[j].1);
                assert(false);
            }
        }
        assert forall|t: int| 1 <= t < i + 1 implies answers(
            items,
            t as nat,
            #[trigger] d.leads[t],
            m0,
        ) by {
            if t < i {
                assert(d.leads[t] == c.leads[t]);
            } else {
                let lead = d.leads[t];
                assert(lead == c.lead());
                if line_forced(items, i, items.len()) {
                    let j = choose|j: int|
                        0 <= j < items.len() && j < items.len() && (#[trigger] items[j]).0 == i
                            && forces_line(items[j].1);
                    assert(j < c.next);
                    assert(line_forced(items, i, c.next));
                }
                if uniform(items, i, items.len(), m0) && spaced(items, i, items.len()) {
                    let j = choose|j: int|
                        0 <= j < items.len() && j < items.len() && (#[trigger] items[j]).0 == i
                            && spacing(items[j].1);
                    assert(j < c.next);
                    assert(spaced(items, i, c.next));
                    assert(uniform(items, i, c.next, m0));
                }
            }
        }
    }
}

/// The printer is attentive after any number of steps.
pub proof fn lemma_run_attentive(page: Page, steps: nat, m: Marker)
    requires
        ordered(page.items, page.widths.len()),
        m != Marker::Break(Break::Soft),
    ensures
        attentive(page, page.run(steps), m),
    decreases steps,
{
    if steps > 0 {
        lemma_run_attentive(page, (steps - 1) as nat, m);
        lemma_run_progress(page, (steps - 1) as nat);
        lemma_step_attentive(page, page.run((steps - 1) as nat), m);
    }
}

/// Mandatory breaks are always taken, and what alone is asked for is given.
///
/// On markers in token order, for every token `t` but the first: a marker
/// in front of it that forces a new line gives it a new line, whatever else
/// is asked there and whatever the width; and where all markers in front of
/// it that ask for whitespace are the same `m`, no soft break, it gets what
/// `m` asks for.
pub proof fn lemma_layout_answers(page: Page, t: int, m: Marker)
    requires
        ordered(page.items, page.widths.len()),
        m != Marker::Break(Break::Soft),
        1 <= t < page.widths.len(),
    ensures
        t < page.layout().len(),
        answers(page.items, t as nat, page.layout()[t], m),
{
    lemma_run_attentive(page, page.steps(), m);
    lemma_run_progress(page, page.steps());
}

/// Without a maximum width every group is flat, and a new line is asked for
/// only where a marker read in front of the next token forces it.
pub open spec fn unhurried(page: Page, c: Cursor) -> bool {
    &&& forall|g: int| 0 <= g < c.groups.len() ==> (#[trigger] c.groups[g]).1
    &&& forall|j: int| 0 <= j < c.next && j < page.items.len() ==> (#[trigger] page.items[j]).0
        <= c.leads.len()
    &&& forall|j: int| c.next <= j < page.items.len() ==> (#[trigger] page.items[j]).0
        >= c.leads.len()
    &&& c.gap is Line ==> line_forced(page.items, c.leads.len(), c.next)
    &&& forall|t: int|
        1 <= t < c.leads.len() && (#[trigger] c.leads[t]) is Line ==> line_forced(
            page.items,
            t as nat,
            page.items.len(),
        )
}

/// Without a maximum width one step keeps the printer unhurried.
pub proof fn lemma_step_unhurried(page: Page, c: Cursor)
    requires
        page.max_width is None,
        ordered(page.items, page.widths.len()),
        c.next <= page.items.len(),
        c.leads.len() <= page.widths.len(),
        unhurried(page, c),
    ensures
        unhurried(page, page.step(c)),
{
    let d = page.step(c);
    let i = c.leads.len();
    let items = page.items;
    if page.due(c.next, i) {
        let m = items[c.next as int].1;
        assert(d.leads == c.leads);
        assert(items[c.next as int].0 == i);
        assert(!page.breaking(c));
        if d.gap is Line && !(c.gap is Line) {
            assert(forces_line(m));
        }
        if c.gap is Line {
            let j = choose|j: int|
                0 <= j < c.next && j < items.len() && (#[trigger] items[j]).0 == i && forces_line(
                    items[j].1,
                );
            assert(line_forced(items, i, d.next));
        }
    } else if i < page.widths.len() {
        assert forall|j: int| c.next <= j < items.len() implies (#[trigger] items[j]).0 >= i + 1 by {
            assert(items[c.next as int].0 <= items[j].0);
        }
        assert(!line_forced(items, (i + 1) as nat, c.next)) by {
            if line_forced(items, (i + 1) as nat, c.next) {
                let j = choose|j: int|
                    0 <= j < c.next && j < items.len() && (#[trigger] items[j]).0 == i + 1
                        && forces_line(items[j].1);
                assert(false);
            }
        }
        assert forall|t: int| 1 <= t < i + 1 && (#[trigger] d.leads[t]) is Line implies line_forced(
            items,
            t as nat,
            items.len(),
        ) by {
            if t < i {
                assert(d.leads[t] == c.leads[t]);
            } else {
                let j = choose|j: int|
                    0 <= j < c.next && j < items.len() && (#[trigger] items[j]).0 == i
                        && forces_line(items[j].1);
                assert(items[j].0 == t as nat);
            }
        }
    }
}

/// Without a maximum width the printer is unhurried after any number of steps.
pub proof fn lemma_run_unhurried(page: Page, steps: nat)
    requires
        page.max_width is None,
        ordered(page.items, page.widths.len()),
    ensures
        unhurried(page, page.run(steps)),
    decreases steps,
{
    if steps > 0 {
        lemma_run_unhurried(page, (steps - 1) as nat);
        lemma_run_progress(page, (steps - 1) as nat);
        lemma_step_unhurried(page, page.run((steps - 1) as nat));
    }
}

/// What a soft break gives: one space, or a new line without an empty
/// line.
pub open spec fn soft_lead(lead: Lead) -> bool {
    lead == Lead::Inline(1) || (lead matches Lead::Line { blank, .. } && !blank)
}

/// What holds of the printer between any two steps where soft breaks are
/// all that is asked for in front of a token.
pub open spec fn supple(page: Page, c: Cursor) -> bool {
    let i = c.leads.len();
    let n = page.widths.len();
    let soft = Marker::Break(Break::Soft);
    &&& forall|j: int| 0 <= j < c.next && j < page.items.len() && i < n ==> (#[trigger] page.items[j]).0 <= i
    &&& forall|j: int| c.next <= j < page.items.len() ==> (#[trigger] page.items[j]).0 >= i
    &&& i < n && uniform(page.items, i, c.next, soft) ==> if spaced(page.items, i, c.next) {
        c.gap == Gap::Inline(1) || c.gap == Gap::Line(false)
    } else {
        c.gap == Gap::Inline(0)
    }
    &&& forall|t: int|
        1 <= t < i && uniform(page.items, t as nat, page.items.len(), soft) && spaced(
            page.items,
            t as nat,
            page.items.len(),
        ) ==> soft_lead(#[trigger] c.leads[t])
}

/// One step keeps the printer supple.
pub proof fn lemma_step_supple(page: Page, c: Cursor)
    requires
        ordered(page.items, page.widths.len()),
        c.next <= page.items.len(),
        c.leads.len() <= page.widths.len(),
        supple(page, c),
    ensures
        supple(page, page.step(c)),
{
    let d = page.step(c);
    let i = c.leads.len();
    let n = page.widths.len();
    let items = page.items;
    let soft = Marker::Break(Break::Soft);
    if page.due(c.next, i) {
        let m = items[c.next as int].1;
        assert(d.leads == c.leads);
        if i < n {
            assert(items[c.next as int].0 == i);
            if uniform(items, i, d.next, soft) {
                assert(uniform(items, i, c.next, soft));
                if spaced(items, i, c.next) {
                    let j = choose|j: int|
                        0 <= j < c.next && j < items.len() && (#[trigger] items[j]).0 == i
                            && spacing(items[j].1);
                    assert(spaced(items, i, d.next));
                } else if spacing(m) {
                    assert(spaced(items, i, d.next));
                } else {
                    if spaced(items, i, d.next) {
                        let j = choose|j: int|
                            0 <= j < d.next && j < items.len() && (#[trigger] items[j]).0 == i
                                && spacing(items[j].1);
                        assert(j < c.next);
                        assert(false);
                    }
                }
            }
        }
    } else if i < n {
        assert(d.next == c.next);
        assert(d.leads.len() == i + 1);
        assert forall|j: int| c.next <= j < items.len() implies (#[trigger] items[j]).0 >= i + 1 by {
            assert(items[c.next as int].0 <= items[j].0);
        }
        if i + 1 < n {
            if spaced(items, (i + 1) as nat, c.next) {
                let j = choose|j: int|
                    0 <= j < c.next && j < items.len() && (#[trigger] items[j]).0 == i + 1
                        && spacing(items[j].1);
                assert(false);
            }
        }
        assert forall|t: int|
            1 <= t < i + 1 && uniform(items, t as nat, items.len(), soft) && spaced(
                items,
                t as nat,
                items.len(),
            ) implies soft_lead(#[trigger] d.leads[t]) by {
            if t < i {
                assert(d.leads[t] == c.leads[t]);
            } else {
                assert(d.leads[t] == c.lead());
                let j = choose|j: int|
                    0 <= j < items.len() && j < items.len() && (#[trigger] items[j]).0 == i
                        && spacing(items[j].1);
                assert(j < c.next);
                assert(spaced(items, i, c.next));
                assert(uniform(items, i, c.next, soft));
            }
        }
    }
}

/// The printer is supple after any number of steps.
pub proof fn lemma_run_supple(page: Page, steps: nat)
    requires
        ordered(page.items, page.widths.len()),
    ensures
        supple(page, page.run(steps)),
    decreases steps,
{
    if steps > 0 {
        lemma_run_supple(page, (steps - 1) as nat);
        lemma_run_progress(page, (steps - 1) as nat);
        lemma_step_supple(page, page.run((steps - 1) as nat));
    }
}

/// Where soft breaks are all that is asked for in front of a token, the
/// token stands one space behind the token before it or starts a new line.
pub proof fn lemma_soft_answers(page: Page, t: int)
    requires
        ordered(page.items, page.widths.len()),
        1 <= t < page.widths.len(),
        uniform(page.items, t as nat, page.items.len(), Marker::Break(Break::Soft)),
        spaced(page.items, t as nat, page.items.len()),
    ensures
        t < page.layout().len(),
        soft_lead(page.layout()[t]),
{
    lemma_run_supple(page, page.steps());
    lemma_run_progress(page, page.steps());
}

/// Without a marker that asks for whitespace in front of it, a token
/// touches the token before it.
pub open spec fn close(page: Page, c: Cursor) -> bool {
    let i = c.leads.len();
    let n = page.widths.len();
    &&& forall|j: int| 0 <= j < c.next && j < page.items.len() && i < n ==> (#[trigger] page.items[j]).0 <= i
    &&& forall|j: int| c.next <= j < page.items.len() ==> (#[trigger] page.items[j]).0 >= i
    &&& i < n && !spaced(page.items, i, c.next) ==> c.gap == Gap::Inline(0)
    &&& forall|t: int|
        0 <= t < i && !spaced(page.items, t as nat, page.items.len()) ==> (#[trigger] c.leads[t])
            == Lead::Inline(0)
}

/// One step keeps the printer close.
pub proof fn lemma_step_close(page: Page, c: Cursor)
    requires
        ordered(page.items, page.widths.len()),
        c.next <= page.items.len(),
        c.leads.len() <= page.widths.len(),
        close(page, c),
    ensures
        close(page, page.step(c)),
{
    let d = page.step(c);
    let i = c.leads.len();
    let n = page.widths.len();
    let items = page.items;
    if page.due(c.next, i) {
        let m = items[c.next as int].1;
        assert(d.leads == c.leads);
        if i < n {
            assert(items[c.next as int].0 == i);
            if !spaced(items, i, d.next) {
                if spaced(items, i, c.next) {
                    let j = choose|j: int|
                        0 <= j < c.next && j < items.len() && (#[trigger] items[j]).0 == i
                            && spacing(items[j].1);
                    assert(spaced(items, i, d.next));
                }
                if spacing(m) {
                    assert(spaced(items, i, d.next));
                }
            }
        }
    } else if i < n {
        assert(d.next == c.next);
        assert(d.leads.len() == i + 1);
        assert forall|j: int| c.next <= j < items.len() implies (#[trigger] items[j]).0 >= i + 1 by {
            assert(items[c.next as int].0 <= items[j].0);
        }
        if i + 1 < n {
            if spaced(items, (i + 1) as nat, c.next) {
                let j = choose|j: int|
                    0 <= j < c.next && j < items.len() && (#[trigger] items[j]).0 == i + 1
                        && spacing(items[j].1);
                assert(false);
            }
        }
        assert forall|t: int|
            0 <= t < i + 1 && !spaced(items, t as nat, items.len()) implies (
        #[trigger] d.leads[t]) == Lead::Inline(0) by {
            if t < i {
                assert(d.leads[t] == c.leads[t]);
            } else {
                assert(d.leads[t] == c.lead());
                if spaced(items, i, c.next) {
                    let j = choose|j: int|
                        0 <= j < c.next && j < items.len() && (#[trigger] items[j]).0 == i
                            && spacing(items[j].1);
                    assert(spaced(items, i, items.len()));
                }
            }
        }
    }
}

/// The printer is close after any number of steps.
pub proof fn lemma_run_close(page: Page, steps: nat)
    requires
        ordered(page.items, page.widths.len()),
    ensures
        close(page, page.run(steps)),
    decreases steps,
{
    if steps > 0 {
        lemma_run_close(page, (steps - 1) as nat);
        lemma_run_progress(page, (steps - 1) as nat);
        lemma_step_close(page, page.run((steps - 1) as nat));
    }
}

/// Where no marker asks for whitespace in front of a token, the token
/// touches the token before it.
pub proof fn lemma_unasked_touches(page: Page, t: int)
    requires
        ordered(page.items, page.widths.len()),
        0 <= t < page.widths.len(),
        !spaced(page.items, t as nat, page.items.len()),
    ensures
        t < page.layout().len(),
        page.layout()[t] == Lead::Inline(0),
{
    lemma_run_close(page, page.steps());
    lemma_run_progress(page, page.steps());
}

} // verus!
