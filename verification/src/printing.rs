//! The printer: it resolves the markers against the maximum line width and
//! writes the tokens with the whitespace decided for each.

use vstd::prelude::*;
use crate::layout::{
    asked, lead_text, lemma_layout_len, merge, shift, spaces, woven, Cursor, Gap,
    Lead, Page,
};
use crate::markers::{Break, Marker, MarkerStream, Shift};
use crate::syntax::{owned, ModelicaCST, Token};

verus! {

/// What the printer works on, as it is held in memory.
pub struct Sheet<'a> {
    pub items: &'a Vec<(usize, Marker)>,
    pub widths: &'a Vec<usize>,
    pub max_width: Option<usize>,
    pub indent_width: usize,
}

impl<'a> Sheet<'a> {
    /// The page that the sheet stands for.
    pub open spec fn page(self) -> Page {
        Page {
            items: self.items@,
            widths: self.widths@.map_values(|w: usize| w as nat),
            max_width: self.max_width,
            indent_width: self.indent_width,
        }
    }
}

/// What an executable column says of the true one: the same where there is
/// one, and that the true one is beyond the range of the machine where
/// there is none.
pub open spec fn stands_for(col: Option<usize>, exact: nat) -> bool {
    match col {
        Some(x) => exact == x,
        None => exact > usize::MAX,
    }
}

/// Executable form of [`shift`].
fn shifted_level(indent: usize, m: Marker) -> (r: usize)
    requires
        indent < usize::MAX,
    ensures
        r == shift(indent as nat, m),
        r <= indent + 1,
{
    match m {
        Marker::IndentDelta(Shift::Push) => indent + 1,
        Marker::IndentDelta(Shift::Pop) => if indent > 0 {
            indent - 1
        } else {
            0
        },
        _ => indent,
    }
}

/// The variables of the printer hold the state `c`.
pub open spec fn mirrors(
    c: Cursor,
    next: usize,
    col: Option<usize>,
    indent: usize,
    groups: Seq<(usize, bool)>,
    gap: Gap,
    leads: Seq<Lead>,
) -> bool {
    &&& c.next == next
    &&& stands_for(col, c.col)
    &&& c.indent == indent
    &&& c.groups == groups
    &&& c.gap == gap
    &&& c.leads == leads
}

/// Executable form of [`merge`].
fn merged(a: Gap, b: Gap) -> (r: Gap)
    ensures
        r == merge(a, b),
{
    match (a, b) {
        (Gap::Inline(x), Gap::Inline(y)) => Gap::Inline(if x >= y { x } else { y }),
        (Gap::Line(x), Gap::Line(y)) => Gap::Line(x || y),
        (Gap::Line(x), Gap::Inline(_)) => Gap::Line(x),
        (Gap::Inline(_), Gap::Line(y)) => Gap::Line(y),
    }
}

/// Executable form of [`asked`].
fn wanted(m: Marker, broken: bool) -> (r: Gap)
    ensures
        r == asked(m, broken),
{
    match m {
        Marker::Break(Break::Hard) => Gap::Line(false),
        Marker::Break(Break::Blank(n)) => if n >= 1 {
            Gap::Line(true)
        } else {
            Gap::Inline(0)
        },
        Marker::Break(Break::Soft) => if broken {
            Gap::Line(false)
        } else {
            Gap::Inline(1)
        },
        Marker::Space(k) => Gap::Inline(k),
        _ => Gap::Inline(0),
    }
}

impl<'a> Sheet<'a> {
    /// Executable form of [`Page::due`].
    fn is_due(&self, j: usize, i: usize) -> (b: bool)
        ensures
            b == self.page().due(j as nat, i as nat),
    {
        j < self.items.len() && (self.items[j].0 <= i || i >= self.widths.len())
    }

    /// Executable form of [`Page::flat_fits`] for the group `id`. The column
    /// is given as far as it is within the range of the machine.
    fn flat_fits(
        &self,
        j: usize,
        i: usize,
        id: usize,
        col: Option<usize>,
        gap: Gap,
        indent: usize,
        w: usize,
        Ghost(exact): Ghost<nat>,
    ) -> (b: bool)
        requires
            indent <= j,
            stands_for(col, exact),
        ensures
            b == self.page().flat_fits(
                j as nat,
                i as nat,
                seq![id],
                exact,
                gap,
                indent as nat,
                w as nat,
            ),
    {
        let ghost page = self.page();
        let ghost goal = page.flat_fits(
            j as nat,
            i as nat,
            seq![id],
            exact,
            gap,
            indent as nat,
            w as nat,
        );
        let n = self.items.len();
        let mut stack: Vec<usize> = Vec::new();
        stack.push(id);
        assert(stack@ =~= seq![id]);
        let mut at: usize = j;
        let mut tok: usize = i;
        let mut here = col;
        let mut space = gap;
        let mut level: usize = indent;
        let ghost mut x: nat = exact;
        loop
            invariant
                page == self.page(),
                n == self.items@.len(),
                level <= at,
                stands_for(here, x),
                goal == page.flat_fits(
                    j as nat,
                    i as nat,
                    seq![id],
                    exact,
                    gap,
                    indent as nat,
                    w as nat,
                ),
                goal == page.flat_fits(
                    at as nat,
                    tok as nat,
                    stack@,
                    x,
                    space,
                    level as nat,
                    w as nat,
                ),
            ensures
                goal,
            decreases
                (if at <= self.items.len() { self.items.len() - at } else { 0 }) + (if tok
                    <= self.widths.len() {
                    self.widths.len() - tok
                } else {
                    0
                }),
        {
            if stack.len() == 0 {
                break;
            }
            if self.is_due(at, tok) {
                match self.items[at].1 {
                    Marker::Group(g) => {
                        if stack[stack.len() - 1] == g {
                            stack.pop();
                        } else {
                            stack.push(g);
                        }
                    },
                    Marker::IndentDelta(d) => {
                        level = shifted_level(level, Marker::IndentDelta(d));
                    },
                    m => {
                        space = merged(space, wanted(m, false));
                    },
                }
                at = at + 1;
            } else if tok < self.widths.len() {
                let start = if tok == 0 {
                    here
                } else {
                    match space {
                        Gap::Inline(k) => match here {
                            Some(c) => c.checked_add(k),
                            None => None,
                        },
                        Gap::Line(_) => level.checked_mul(self.indent_width),
                    }
                };
                assert(stands_for(start, page.place(tok as nat, x, space, level as nat)));
                let end = match start {
                    Some(s) => s.checked_add(self.widths[tok]),
                    None => None,
                };
                match end {
                    Some(e) => {
                        if e > w {
                            return false;
                        }
                        here = Some(e);
                        proof {
                            x = e as nat;
                        }
                    },
                    None => {
                        return false;
                    },
                }
                space = Gap::Inline(0);
                tok = tok + 1;
            } else {
                break;
            }
        }
        true
    }

    /// Executable form of [`Page::line_indent`].
    fn line_indent(&self, j: usize, i: usize, indent: usize) -> (r: usize)
        requires
            indent <= j,
        ensures
            r == self.page().line_indent(j as nat, i as nat, indent as nat),
    {
        let n = self.items.len();
        let mut at: usize = j;
        let mut level: usize = indent;
        while self.is_due(at, i)
            invariant
                n == self.items@.len(),
                level <= at,
                self.page().line_indent(j as nat, i as nat, indent as nat) == self.page().line_indent(
                    at as nat,
                    i as nat,
                    level as nat,
                ),
            decreases self.items@.len() - at,
        {
            level = shifted_level(level, self.items[at].1);
            at = at + 1;
        }
        level
    }

    /// The column at which the next token starts, if it is within the
    /// range of the machine.
    fn start_col(
        &self,
        next: usize,
        placed: usize,
        col: Option<usize>,
        indent: usize,
        gap: Gap,
    ) -> (r: Option<usize>)
        requires
            indent <= next,
        ensures
            forall|c: Cursor|
                c.next == next && c.leads.len() == placed && c.indent == indent && c.gap == gap
                    && stands_for(col, c.col) ==> stands_for(r, #[trigger] self.page().start_col(c)),
    {
        if placed == 0 {
            col
        } else {
            match gap {
                Gap::Inline(k) => match col {
                    Some(x) => x.checked_add(k),
                    None => None,
                },
                Gap::Line(_) => {
                    let level = self.line_indent(next, placed, indent);
                    let r = level.checked_mul(self.indent_width);
                    r
                },
            }
        }
    }

    /// Executable form of [`Page::fits`].
    fn fits(
        &self,
        next: usize,
        placed: usize,
        col: Option<usize>,
        indent: usize,
        gap: Gap,
        id: usize,
        Ghost(c): Ghost<Cursor>,
    ) -> (b: bool)
        requires
            indent <= next,
            next < self.items@.len(),
            c.next == next,
            c.leads.len() == placed,
            c.indent == indent,
            c.gap == gap,
            stands_for(col, c.col),
        ensures
            b == self.page().fits(c, id),
    {
        match self.max_width {
            None => true,
            Some(w) => {
                let n = self.items.len();
                self.flat_fits(next + 1, placed, id, col, gap, indent, w, Ghost(c.col))
            },
        }
    }

    /// Decides the whitespace in front of every token.
    pub fn resolve(&self) -> (leads: Vec<Lead>)
        ensures
            leads@ == self.page().layout(),
    {
        let n_items = self.items.len();
        let n_tokens = self.widths.len();
        let mut next: usize = 0;
        let mut col: Option<usize> = Some(0);
        let mut indent: usize = 0;
        let mut groups: Vec<(usize, bool)> = Vec::new();
        let mut gap = Gap::Inline(0);
        let mut leads: Vec<Lead> = Vec::new();
        let ghost mut steps: nat = 0;
        assert(mirrors(self.page().run(0), next, col, indent, groups@, gap, leads@));
        while next < n_items || leads.len() < n_tokens
            invariant
                n_items == self.items@.len(),
                n_tokens == self.widths@.len(),
                next <= n_items,
                leads@.len() <= n_tokens,
                indent <= next,
                steps == next + leads@.len(),
                mirrors(self.page().run(steps), next, col, indent, groups@, gap, leads@),
            decreases (n_items - next) + (n_tokens - leads@.len()),
        {
            let ghost c = self.page().run(steps);
            assert(self.page().run((steps + 1) as nat) == self.page().step(c));
            let placed = leads.len();
            let depth = groups.len();
            if self.is_due(next, placed) {
                match self.items[next].1 {
                    Marker::IndentDelta(d) => {
                        indent = shifted_level(indent, Marker::IndentDelta(d));
                    },
                    Marker::Group(id) => {
                        if depth > 0 && groups[depth - 1].0 == id {
                            groups.pop();
                            assert(groups@ =~= c.groups.drop_last());
                        } else {
                            let flat = (depth > 0 && groups[depth - 1].1) || self.fits(
                                next,
                                placed,
                                col,
                                indent,
                                gap,
                                id,
                                Ghost(c),
                            );
                            groups.push((id, flat));
                            assert(groups@ =~= c.groups.push((id, c.in_flat() || self.page().fits(c, id))));
                        }
                    },
                    m => {
                        let broken = self.max_width.is_some() && depth > 0 && !groups[depth
                            - 1].1;
                        gap = merged(gap, wanted(m, broken));
                    },
                }
                next = next + 1;
            } else {
                let start = self.start_col(next, placed, col, indent, gap);
                assert(stands_for(start, self.page().start_col(c)));
                col =
                match start {
                    Some(s) => s.checked_add(self.widths[placed]),
                    None => None,
                };
                let lead = if placed == 0 {
                    Lead::Inline(0)
                } else {
                    match gap {
                        Gap::Inline(k) => Lead::Inline(k),
                        Gap::Line(blank) => Lead::Line { blank, indent },
                    }
                };
                leads.push(lead);
                gap = Gap::Inline(0);
                assert(leads@ =~= c.leads.push(c.lead()));
            }
            proof {
                steps = steps + 1;
            }
        }
        leads
    }
}

/// The text of each token.
pub open spec fn texts_of(tokens: Seq<Token>) -> Seq<Seq<char>> {
    tokens.map_values(|t: Token| t.text@)
}

/// The width of each token: the number of its characters.
pub open spec fn widths_of(tokens: Seq<Token>) -> Seq<nat> {
    tokens.map_values(|t: Token| t.text@.len())
}

/// The page on which the tokens are laid out under the given markers and
/// settings.
pub open spec fn page_for(
    tokens: Seq<Token>,
    items: Seq<(usize, Marker)>,
    max_width: Option<usize>,
    indent_width: usize,
) -> Page {
    Page { items, widths: widths_of(tokens), max_width, indent_width }
}

/// The text that the printer writes for the tokens under the given markers
/// and settings: every token as it is, in order, each behind the whitespace
/// decided for it. Lines end in a line feed; none follows the last token.
pub open spec fn printed(
    tokens: Seq<Token>,
    items: Seq<(usize, Marker)>,
    max_width: Option<usize>,
    indent_width: usize,
) -> Seq<char> {
    woven(
        page_for(tokens, items, max_width, indent_width).layout(),
        texts_of(tokens),
        indent_width,
        tokens.len(),
    )
}

/// Appends `n` spaces to `out`.
fn push_spaces(out: &mut String, n: usize)
    ensures
        final(out)@ == old(out)@ + spaces(n as nat),
{
    let mut i: usize = 0;
    assert(out@ =~= old(out)@ + spaces(0));
    while i < n
        invariant
            i <= n,
            out@ == old(out)@ + spaces(i as nat),
        decreases n - i,
    {
        proof {
            reveal_strlit(" ");
        }
        out.append(" ");
        i = i + 1;
        assert(out@ =~= old(out)@ + spaces(i as nat));
    }
}

/// Appends the indentation of `indent` levels to `out`.
fn push_indent(out: &mut String, indent: usize, indent_width: usize)
    ensures
        final(out)@ == old(out)@ + spaces(indent as nat * indent_width as nat),
{
    let mut level: usize = 0;
    assert(out@ =~= old(out)@ + spaces(0));
    while level < indent
        invariant
            level <= indent,
            out@ == old(out)@ + spaces(level as nat * indent_width as nat),
        decreases indent - level,
    {
        push_spaces(out, indent_width);
        assert((level + 1) as nat * indent_width as nat == level as nat * indent_width as nat
            + indent_width as nat) by (nonlinear_arith);
        level = level + 1;
        assert(out@ =~= old(out)@ + spaces(level as nat * indent_width as nat));
    }
}

/// Appends the whitespace in front of a token to `out`.
fn push_lead(out: &mut String, lead: Lead, indent_width: usize)
    ensures
        final(out)@ == old(out)@ + lead_text(lead, indent_width),
{
    match lead {
        Lead::Inline(k) => {
            push_spaces(out, k);
        },
        Lead::Line { blank, indent } => {
            proof {
                reveal_strlit("\n");
            }
            out.append("\n");
            if blank {
                out.append("\n");
            }
            let ghost broken = out@;
            assert(broken =~= old(out)@ + (if blank {
                seq!['\n', '\n']
            } else {
                seq!['\n']
            }));
            push_indent(out, indent, indent_width);
            assert(out@ =~= old(out)@ + lead_text(lead, indent_width));
        },
    }
}

/// Prints the tokens of the tree with the whitespace that the markers ask
/// for.
pub fn print(tree: &ModelicaCST, markers: MarkerStream) -> (out: String)
    requires
        markers.well_formed(tree.tokens().len()),
    ensures
        out@ == printed(tree.tokens(), markers.items@, markers.max_width, markers.indent_width),
{
    let mut tokens: Vec<&Token> = Vec::new();
    assert(owned(tokens@) =~= Seq::<Token>::empty());
    tree.root.collect_tokens(&mut tokens);
    assert(owned(tokens@) =~= tree.tokens());
    let n = tokens.len();
    let mut widths: Vec<usize> = Vec::new();
    let mut i: usize = 0;
    while i < n
        invariant
            n == tokens@.len(),
            i <= n,
            widths@.len() == i,
            forall|k: int| 0 <= k < i ==> widths@[k] == (#[trigger] tokens@[k]).text@.len(),
        decreases n - i,
    {
        widths.push(tokens[i].text.as_str().unicode_len());
        i = i + 1;
    }
    let sheet = Sheet {
        items: &markers.items,
        widths: &widths,
        max_width: markers.max_width,
        indent_width: markers.indent_width,
    };
    let ghost page = page_for(
        tree.tokens(),
        markers.items@,
        markers.max_width,
        markers.indent_width,
    );
    assert(sheet.page().widths =~= page.widths);
    let leads = sheet.resolve();
    let ghost texts = texts_of(tree.tokens());
    let mut out = String::new();
    let mut k: usize = 0;
    assert(leads@.len() == n) by {
        lemma_layout_len(page);
    }
    while k < n
        invariant
            n == tokens@.len(),
            leads@.len() == n,
            texts == texts_of(owned(tokens@)),
            k <= n,
            out@ == woven(leads@, texts, markers.indent_width, k as nat),
        decreases n - k,
    {
        push_lead(&mut out, leads[k], markers.indent_width);
        out.append(tokens[k].text.as_str());
        k = k + 1;
    }
    out
}

} // verus!
