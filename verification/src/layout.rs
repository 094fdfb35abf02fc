//! What the printer decides: for every token the whitespace in front of it.
//!
//! The decision is defined as a run of single steps over the markers and
//! the widths of the tokens. The text itself plays no part in it.

use vstd::prelude::*;
use crate::markers::{Break, Marker, Shift};

verus! {

/// The whitespace asked for in front of the next token.
#[derive(Clone, Copy, Debug, PartialEq, Eq, Structural)]
pub enum Gap {
    /// That many spaces on the same line.
    Inline(usize),
    /// A new line, after one empty line where the flag is set.
    Line(bool),
}

/// The whitespace in front of one token of the output.
#[derive(Clone, Copy, Debug, PartialEq, Eq, Structural)]
pub enum Lead {
    /// That many spaces on the same line.
    Inline(usize),
    /// A new line at the given level of indentation, after one empty line
    /// where `blank` is set.
    Line { blank: bool, indent: usize },
}

/// What the printer works on: the markers, the width of each token in
/// characters, and the settings.
pub struct Page {
    pub items: Seq<(usize, Marker)>,
    pub widths: Seq<nat>,
    pub max_width: Option<usize>,
    pub indent_width: usize,
}

/// The state of the printer between two steps.
pub struct Cursor {
    /// The number of markers read.
    pub next: nat,
    /// The column behind the last token placed.
    pub col: nat,
    /// The level of indentation.
    pub indent: nat,
    /// The open groups, outermost first: the identifier, and whether the
    /// group is laid out flat.
    pub groups: Seq<(usize, bool)>,
    /// The whitespace asked for since the last token.
    pub gap: Gap,
    /// The whitespace decided in front of each token placed.
    pub leads: Seq<Lead>,
    /// A flat group was open at some time since the last token was
    /// placed.
    pub touched: bool,
    /// The last token placed that starts a line or has a flat group in
    /// front of it.
    pub since: nat,
    /// For each token placed, whether it stands in a flat group.
    pub kept: Seq<bool>,
    /// For each token placed, whether a flat group was open at some time
    /// between it and the token before it.
    pub eased: Seq<bool>,
}

/// The stronger of two requests at one place: a new line beats spaces, an
/// empty line beats none, more spaces beat fewer.
pub open spec fn merge(a: Gap, b: Gap) -> Gap {
    match (a, b) {
        (Gap::Inline(x), Gap::Inline(y)) => Gap::Inline(if x >= y { x } else { y }),
        (Gap::Line(x), Gap::Line(y)) => Gap::Line(x || y),
        (Gap::Line(x), Gap::Inline(_)) => Gap::Line(x),
        (Gap::Inline(_), Gap::Line(y)) => Gap::Line(y),
    }
}

/// What a marker asks for in front of the next token. `broken` says that
/// a soft break is taken where the marker stands.
pub open spec fn asked(m: Marker, broken: bool) -> Gap {
    match m {
        Marker::Break(Break::Hard) => Gap::Line(false),
        Marker::Break(Break::Blank(n)) => if n >= 1 {
            Gap::Line(true)
        } else {
            Gap::Inline(0)
        },
        Marker::Break(Break::Soft) => if broken {
            Gap::Line(false)
        } else {
            Gap::Inline(1)
        },
        Marker::Space(k) => Gap::Inline(k),
        _ => Gap::Inline(0),
    }
}

/// The level of indentation after a marker.
pub open spec fn shift(indent: nat, m: Marker) -> nat {
    match m {
        Marker::IndentDelta(Shift::Push) => indent + 1,
        Marker::IndentDelta(Shift::Pop) => if indent > 0 {
            (indent - 1) as nat
        } else {
            0
        },
        _ => indent,
    }
}

impl Page {
    /// Whether marker `j` is read before token `i` is placed: it stands in
    /// front of that token or an earlier one, or no token is left.
    pub open spec fn due(self, j: nat, i: nat) -> bool {
        j < self.items.len() && (self.items[j as int].0 <= i || i >= self.widths.len())
    }

    /// The level of indentation at which token `i` starts a line: the level
    /// `indent` changed by the markers from `j` on that are read before the
    /// token is placed.
    pub open spec fn line_indent(self, j: nat, i: nat, indent: nat) -> nat
        decreases self.items.len() - j,
    {
        if self.due(j, i) {
            self.line_indent(j + 1, i, shift(indent, self.items[j as int].1))
        } else {
            indent
        }
    }

    /// Whether what follows marker `j` and token `i` up to the end of the
    /// outermost group in `stack` fits when it is laid out flat: every
    /// token in it ends within the width `w`.
    ///
    /// The tokens are placed as the printer places them in a flat group,
    /// from the column `col` with the whitespace `gap` asked for and at the
    /// level `indent`: a soft break is one space, and a marker that forces
    /// a new line starts one, at the level then reached.
    pub open spec fn flat_fits(
        self,
        j: nat,
        i: nat,
        stack: Seq<usize>,
        col: nat,
        gap: Gap,
        indent: nat,
        w: nat,
    ) -> bool
        decreases self.items.len() - j, self.widths.len() - i,
    {
        if stack.len() == 0 {
            true
        } else if self.due(j, i) {
            match self.items[j as int].1 {
                Marker::Group(id) => if stack.last() == id {
                    self.flat_fits(j + 1, i, stack.drop_last(), col, gap, indent, w)
                } else {
                    self.flat_fits(j + 1, i, stack.push(id), col, gap, indent, w)
                },
                Marker::IndentDelta(d) => self.flat_fits(
                    j + 1,
                    i,
                    stack,
                    col,
                    gap,
                    shift(indent, Marker::IndentDelta(d)),
                    w,
                ),
                m => self.flat_fits(j + 1, i, stack, col, merge(gap, asked(m, false)), indent, w),
            }
        } else if i < self.widths.len() {
            let end = self.place(i, col, gap, indent) + self.widths[i as int];
            end <= w && self.flat_fits(j, i + 1, stack, end, Gap::Inline(0), indent, w)
        } else {
            true
        }
    }

    /// The column at which token `i` starts behind the column `col`, with
    /// the whitespace `gap` in front of it at the level `indent`. The first
    /// token starts the text.
    pub open spec fn place(self, i: nat, col: nat, gap: Gap, indent: nat) -> nat {
        if i == 0 {
            col
        } else {
            match gap {
                Gap::Inline(k) => col + k as nat,
                Gap::Line(_) => indent * self.indent_width as nat,
            }
        }
    }

    /// The printer before its first step.
    pub open spec fn start(self) -> Cursor {
        Cursor {
            next: 0,
            col: 0,
            indent: 0,
            groups: Seq::empty(),
            gap: Gap::Inline(0),
            leads: Seq::empty(),
            touched: false,
            since: 0,
            kept: Seq::empty(),
            eased: Seq::empty(),
        }
    }

    /// The column at which the next token starts if it is placed with the
    /// whitespace asked for so far. The first token starts the text.
    pub open spec fn start_col(self, c: Cursor) -> nat {
        if c.leads.len() == 0 {
            c.col
        } else {
            match c.gap {
                Gap::Inline(k) => c.col + k as nat,
                Gap::Line(_) => self.line_indent(c.next, c.leads.len(), c.indent)
                    * self.indent_width as nat,
            }
        }
    }

    /// Whether the group that opens at marker `c.next` is laid out flat.
    ///
    /// Without a maximum width every group is flat. With one, a group is
    /// flat where it fits: laid out flat from where it starts to the marker
    /// that closes it, every token in it ends within the width. A group
    /// that ends exactly at the width fits. What follows the group plays no
    /// part, and a marker in it that forces a new line does not decide:
    /// the line behind it has to fit as well.
    pub open spec fn fits(self, c: Cursor, id: usize) -> bool {
        match self.max_width {
            None => true,
            Some(w) => self.flat_fits(
                c.next + 1,
                c.leads.len(),
                seq![id],
                c.col,
                c.gap,
                c.indent,
                w as nat,
            ),
        }
    }

    /// Whether a soft break read now is taken: under a maximum width, it is
    /// taken where it stands directly in a group that is broken. Outside of
    /// all groups none is taken.
    pub open spec fn breaking(self, c: Cursor) -> bool {
        self.max_width is Some && c.groups.len() > 0 && !c.groups.last().1
    }

    /// The printer after one more step: it reads the next marker if one is
    /// due, else it places the next token.
    pub open spec fn step(self, c: Cursor) -> Cursor {
        let i = c.leads.len();
        if self.due(c.next, i) {
            let m = self.items[c.next as int].1;
            match m {
                Marker::IndentDelta(_) => Cursor { next: c.next + 1, indent: shift(c.indent, m), ..c },
                Marker::Group(id) => if c.groups.len() > 0 && c.groups.last().0 == id {
                    Cursor { next: c.next + 1, groups: c.groups.drop_last(), ..c }
                } else {
                    let flat = c.in_flat() || self.fits(c, id);
                    Cursor {
                        next: c.next + 1,
                        groups: c.groups.push((id, flat)),
                        touched: c.touched || flat,
                        ..c
                    }
                },
                _ => Cursor {
                    next: c.next + 1,
                    gap: merge(c.gap, asked(m, self.breaking(c))),
                    ..c
                },
            }
        } else if i < self.widths.len() {
            let lead = c.lead();
            Cursor {
                col: self.start_col(c) + self.widths[i as int],
                gap: Gap::Inline(0),
                leads: c.leads.push(lead),
                touched: c.in_flat(),
                since: if lead is Line || i == 0 || c.touched {
                    i
                } else {
                    c.since
                },
                kept: c.kept.push(c.in_flat()),
                eased: c.eased.push(c.touched),
                ..c
            }
        } else {
            c
        }
    }

    /// The printer after `steps` steps.
    pub open spec fn run(self, steps: nat) -> Cursor
        decreases steps,
    {
        if steps == 0 {
            self.start()
        } else {
            self.step(self.run((steps - 1) as nat))
        }
    }

    /// The number of steps after which every marker is read and every token
    /// placed.
    pub open spec fn steps(self) -> nat {
        self.items.len() + self.widths.len()
    }

    /// The whitespace in front of each token.
    pub open spec fn layout(self) -> Seq<Lead> {
        self.run(self.steps()).leads
    }

    /// For each token, whether it stands in a group that is laid out flat.
    pub open spec fn kept_tokens(self) -> Seq<bool> {
        self.run(self.steps()).kept
    }

    /// For each token, whether a flat group was open at some time between
    /// it and the token before it: the token stands in a flat group or
    /// directly behind one.
    pub open spec fn eased_tokens(self) -> Seq<bool> {
        self.run(self.steps()).eased
    }
}

impl Cursor {
    /// The innermost open group is laid out flat.
    pub open spec fn in_flat(self) -> bool {
        self.groups.len() > 0 && self.groups.last().1
    }

    /// The whitespace in front of the next token: what was asked for since
    /// the last token; nothing in front of the first token.
    pub open spec fn lead(self) -> Lead {
        if self.leads.len() == 0 {
            Lead::Inline(0)
        } else {
            match self.gap {
                Gap::Inline(k) => Lead::Inline(k),
                Gap::Line(blank) => Lead::Line { blank, indent: self.indent as usize },
            }
        }
    }
}

/// The column behind token `i` on its line of the output, for tokens that
/// hold no line break themselves.
pub open spec fn end_col(leads: Seq<Lead>, widths: Seq<nat>, indent_width: usize, i: int) -> nat
    decreases i,
{
    if i < 0 || i >= leads.len() || i >= widths.len() {
        0
    } else {
        let start = match leads[i] {
            Lead::Inline(k) => if i == 0 {
                k as nat
            } else {
                end_col(leads, widths, indent_width, i - 1) + k as nat
            },
            Lead::Line { blank, indent } => indent as nat * indent_width as nat,
        };
        start + widths[i]
    }
}

/// A run of `n` spaces.
pub open spec fn spaces(n: nat) -> Seq<char> {
    Seq::new(n, |i: int| ' ')
}

/// The characters of the whitespace in front of a token: spaces, or the
/// line break, a second one for an empty line, and the indentation. No
/// space ever stands in front of a line break.
pub open spec fn lead_text(lead: Lead, indent_width: usize) -> Seq<char> {
    match lead {
        Lead::Inline(k) => spaces(k as nat),
        Lead::Line { blank, indent } => (if blank {
            seq!['\n', '\n']
        } else {
            seq!['\n']
        }) + spaces(indent as nat * indent_width as nat),
    }
}

/// The text of the first `k` tokens, each behind its whitespace.
pub open spec fn woven(leads: Seq<Lead>, texts: Seq<Seq<char>>, indent_width: usize, k: nat) -> Seq<
    char,
>
    decreases k,
{
    if k == 0 || k > leads.len() || k > texts.len() {
        Seq::empty()
    } else {
        woven(leads, texts, indent_width, (k - 1) as nat) + lead_text(
            leads[k - 1],
            indent_width,
        ) + texts[k - 1]
    }
}

/// How far the printer has come after `steps` steps: it has read or
/// placed one marker or token per step until none is left.
pub proof fn lemma_run_progress(page: Page, steps: nat)
    ensures
        page.run(steps).next <= page.items.len(),
        page.run(steps).leads.len() <= page.widths.len(),
        page.run(steps).kept.len() == page.run(steps).leads.len(),
        page.run(steps).eased.len() == page.run(steps).leads.len(),
        page.run(steps).next + page.run(steps).leads.len() == if steps <= page.steps() {
            steps
        } else {
            page.steps()
        },
    decreases steps,
{
    if steps > 0 {
        lemma_run_progress(page, (steps - 1) as nat);
    }
}

/// Every token gets its whitespace.
pub proof fn lemma_layout_len(page: Page)
    ensures
        page.layout().len() == page.widths.len(),
        page.kept_tokens().len() == page.widths.len(),
{
    lemma_run_progress(page, page.steps());
}

/// Nothing stands in front of the first token.
pub proof fn lemma_first_lead(page: Page)
    requires
        page.widths.len() > 0,
    ensures
        page.layout().len() > 0,
        page.layout()[0] == Lead::Inline(0),
{
    lemma_layout_len(page);
    lemma_first_lead_upto(page, page.steps());
}

/// Nothing stands in front of the first token, after any number of steps.
pub proof fn lemma_first_lead_upto(page: Page, steps: nat)
    ensures
        page.run(steps).leads.len() > 0 ==> page.run(steps).leads[0] == Lead::Inline(0),
    decreases steps,
{
    if steps > 0 {
        lemma_first_lead_upto(page, (steps - 1) as nat);
    }
}

} // verus!
