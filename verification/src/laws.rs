//! What holds of every formatted text: the tokens are kept, a line passes
//! the width only where it could not be broken, empty lines are bounded,
//! comments stay attached, formatting a formatted text changes nothing, and
//! what is written passes the check.

use vstd::prelude::*;
use crate::attachment::{lemma_run_unhurried, 
    agrees, forces_line, lemma_layout_answers, lemma_run_close, lemma_soft_answers,
    lemma_unasked_touches, line_forced, spaced, spacing, uniform,
};
use crate::balance::{
    lemma_children_extends, lemma_element_extends, lemma_markers_well_formed, lemma_node_extends,
    lemma_node_steady,
};
use crate::classes::{
    at_class, at_end, lemma_class_marks, lemma_definition_comes_to_class, lemma_node_comes_to_on,
    plain_class, plain_definition,
};
use crate::comments::{lemma_node_apart, lemma_node_observed, obeys, parts, spaced_between, wide};
use crate::equations::{
    behind_sign, lemma_equation_level, lemma_equation_marks, lemma_equation_places,
    in_front, lemma_in_front_start, lemma_line_sticks, lemma_node_comes_to, lemma_right_side_closes, lemma_run_indent,
    lemma_soft_break_in_its_group, lemma_space_sticks, lemma_split, lemma_state_at, lemma_step_of,
    lemma_walks_lead, lies_in, node_comes_to, plain_equation, splits,
};
use crate::fitting::{
    behind, free, lemma_leads_kept, lemma_roomy_run, lemma_run_mindful, lemma_run_sound, roomy,
};
use crate::formatting::{Walk, after_children, after_node, comment_marker, line_break, markers_of};
use crate::layout::{
    Gap, Lead, Page, asked, end_col, lead_text, lemma_first_lead, lemma_layout_len,
    lemma_run_progress, spaces, woven,
};
use crate::lexer::{covers, describe_all, lemma_lexemes_lossless, lexemes};
use crate::markers::{Break, MAX_BLANK_LINES, Marker, Shift, indent_level, ordered};
use crate::parser::{MAX_DEPTH, Shape, derivation, document, lemma_derivation_known};
use crate::printing::{page_for, printed, texts_of, widths_of};
use crate::reparse::{lemma_like_aligned_nodes, lemma_match_alike, lemma_unknown_alike};
use crate::roundtrip::{Printout, lemma_read_alike, safe, terminates};
use crate::rules::{Sep, attaches, closes, grouped, indented, opens, separator};
use crate::stability::{
    Setting, aligned_nodes, alike, all_alike, is_line, leads, lemma_aligned_leaves_upto,
    lemma_node_twins,
};
use crate::syntax::{ModelicaCST, SyntaxKind, SyntaxNode, Token};

verus! {

/// The text holds nothing but spaces and line feeds.
pub open spec fn is_blank(s: Seq<char>) -> bool {
    forall|i: int| 0 <= i < s.len() ==> s[i] == ' ' || s[i] == '\n'
}

/// No space stands in front of a line feed.
pub open spec fn breaks_first(s: Seq<char>) -> bool {
    forall|a: int, b: int| 0 <= a < b < s.len() && s[b] == '\n' ==> s[a] == '\n'
}

/// The number of line feeds in a text.
pub open spec fn line_feeds(s: Seq<char>) -> nat
    decreases s.len(),
{
    if s.len() == 0 {
        0
    } else {
        line_feeds(s.drop_last()) + if s.last() == '\n' {
            1nat
        } else {
            0nat
        }
    }
}

/// The first `k` of the texts, each behind its separator.
pub open spec fn weave(seps: Seq<Seq<char>>, texts: Seq<Seq<char>>, k: nat) -> Seq<char>
    decreases k,
{
    if k == 0 || k > seps.len() || k > texts.len() {
        Seq::empty()
    } else {
        weave(seps, texts, (k - 1) as nat) + seps[k - 1] + texts[k - 1]
    }
}

/// The whitespace that the printer writes in front of each token.
pub open spec fn separators(
    tokens: Seq<Token>,
    items: Seq<(usize, Marker)>,
    max_width: Option<usize>,
    indent_width: usize,
) -> Seq<Seq<char>> {
    page_for(tokens, items, max_width, indent_width).layout().map_values(
        |l: Lead| lead_text(l, indent_width),
    )
}

/// The line feeds of two texts add up.
pub proof fn lemma_line_feeds_concat(a: Seq<char>, b: Seq<char>)
    ensures
        line_feeds(a + b) == line_feeds(a) + line_feeds(b),
    decreases b.len(),
{
    if b.len() == 0 {
        assert(a + b =~= a);
    } else {
        assert((a + b).drop_last() =~= a + b.drop_last());
        lemma_line_feeds_concat(a, b.drop_last());
    }
}

/// A run of spaces holds no line feed.
pub proof fn lemma_spaces_no_line_feed(n: nat)
    ensures
        line_feeds(spaces(n)) == 0,
        is_blank(spaces(n)),
    decreases n,
{
    if n > 0 {
        assert(spaces(n).drop_last() =~= spaces((n - 1) as nat));
        lemma_spaces_no_line_feed((n - 1) as nat);
    }
}

/// The whitespace in front of a token is spaces and line feeds only, with
/// no space in front of a line feed, and holds at most one empty line.
pub proof fn lemma_lead_text(lead: Lead, indent_width: usize)
    ensures
        is_blank(lead_text(lead, indent_width)),
        line_feeds(lead_text(lead, indent_width)) <= 1 + MAX_BLANK_LINES,
        breaks_first(lead_text(lead, indent_width)),
{
    match lead {
        Lead::Inline(k) => {
            lemma_spaces_no_line_feed(k as nat);
        },
        Lead::Line { blank, indent } => {
            let n = indent as nat * indent_width as nat;
            let head = if blank {
                seq!['\n', '\n']
            } else {
                seq!['\n']
            };
            lemma_spaces_no_line_feed(n);
            lemma_line_feeds_concat(head, spaces(n));
            assert(line_feeds(head) <= 2) by {
                reveal_with_fuel(line_feeds, 3);
                if blank {
                    assert(head.drop_last() =~= seq!['\n']);
                    assert(head.drop_last().drop_last() =~= Seq::<char>::empty());
                } else {
                    assert(head.drop_last() =~= Seq::<char>::empty());
                }
            }
        },
    }
}

/// Token preservation and the bound on empty lines.
///
/// Whatever the markers and the width, the printed text is the texts of the
/// tokens, each once and in their order, with a separator in front of each
/// that holds only spaces and line feeds. Nothing stands in front of the
/// first token or behind the last. No separator holds more than one empty
/// line, and none holds a space in front of a line feed.
pub proof fn lemma_tokens_preserved(
    tokens: Seq<Token>,
    items: Seq<(usize, Marker)>,
    max_width: Option<usize>,
    indent_width: usize,
)
    ensures
        ({
            let seps = separators(tokens, items, max_width, indent_width);
            &&& seps.len() == tokens.len()
            &&& printed(tokens, items, max_width, indent_width) == weave(
                seps,
                texts_of(tokens),
                tokens.len(),
            )
            &&& tokens.len() > 0 ==> seps[0].len() == 0
            &&& forall|i: int|
                0 <= i < seps.len() ==> is_blank(#[trigger] seps[i]) && line_feeds(seps[i]) <= 1
                    + MAX_BLANK_LINES && breaks_first(seps[i])
        }),
{
    let page = page_for(tokens, items, max_width, indent_width);
    let leads = page.layout();
    let seps = separators(tokens, items, max_width, indent_width);
    lemma_layout_len(page);
    assert forall|i: int| 0 <= i < seps.len() implies is_blank(#[trigger] seps[i]) && line_feeds(
        seps[i],
    ) <= 1 + MAX_BLANK_LINES && breaks_first(seps[i]) by {
        lemma_lead_text(leads[i], indent_width);
    }
    lemma_woven_is_weave(leads, texts_of(tokens), indent_width, tokens.len());
    if tokens.len() > 0 {
        crate::layout::lemma_first_lead(page);
        assert(seps[0] =~= spaces(0));
    }
}

/// Only whitespace changes.
///
/// Let `tree` hold the tokens of the text `source`, as a tree parsed from
/// it does. The tokens lie in the source in order, each with the text that
/// it has in the tree, with nothing but whitespace around and between them.
/// The formatted text is the same texts in the same order, with nothing
/// but spaces and line feeds between them.
pub proof fn lemma_only_whitespace_changes(
    source: Seq<char>,
    tree: ModelicaCST,
    max_width: Option<usize>,
    indent_width: usize,
)
    requires
        describe_all(tree.tokens(), lexemes(source), source),
    ensures
        ({
            let tokens = tree.tokens();
            let seps = separators(tokens, markers_of(tree), max_width, indent_width);
            &&& covers(source, lexemes(source), 0, 0)
            &&& lexemes(source).len() == tokens.len()
            &&& forall|i: int|
                0 <= i < tokens.len() ==> (#[trigger] texts_of(tokens)[i]) == source.subrange(
                    lexemes(source)[i].start as int,
                    lexemes(source)[i].end as int,
                )
            &&& seps.len() == tokens.len()
            &&& forall|i: int| 0 <= i < seps.len() ==> is_blank(#[trigger] seps[i])
            &&& printed(tokens, markers_of(tree), max_width, indent_width) == weave(
                seps,
                texts_of(tokens),
                tokens.len(),
            )
        }),
{
    lemma_lexemes_lossless(source);
    lemma_tokens_preserved(tree.tokens(), markers_of(tree), max_width, indent_width);
}

/// Weaving the tokens behind their leads is weaving them behind the texts
/// of the leads.
pub proof fn lemma_woven_is_weave(
    leads: Seq<Lead>,
    texts: Seq<Seq<char>>,
    indent_width: usize,
    k: nat,
)
    ensures
        woven(leads, texts, indent_width, k) == weave(
            leads.map_values(|l: Lead| lead_text(l, indent_width)),
            texts,
            k,
        ),
    decreases k,
{
    if k > 0 {
        lemma_woven_is_weave(leads, texts, indent_width, (k - 1) as nat);
    }
}

/// The number of characters behind the last line feed of a text.
pub open spec fn last_line_len(s: Seq<char>) -> nat
    decreases s.len(),
{
    if s.len() == 0 || s.last() == '\n' {
        0
    } else {
        last_line_len(s.drop_last()) + 1
    }
}

/// The last line of two texts, one after the other.
pub proof fn lemma_last_line_concat(a: Seq<char>, b: Seq<char>)
    ensures
        last_line_len(a + b) == if line_feeds(b) == 0 {
            last_line_len(a) + b.len()
        } else {
            last_line_len(b)
        },
    decreases b.len(),
{
    if b.len() == 0 {
        assert(a + b =~= a);
    } else {
        assert((a + b).drop_last() =~= a + b.drop_last());
        lemma_last_line_concat(a, b.drop_last());
    }
}

/// A run of spaces is one line.
pub proof fn lemma_last_line_spaces(n: nat)
    ensures
        last_line_len(spaces(n)) == n,
    decreases n,
{
    if n > 0 {
        assert(spaces(n).drop_last() =~= spaces((n - 1) as nat));
        lemma_last_line_spaces((n - 1) as nat);
    }
}

/// Width respect in a flat group.
///
/// Under a maximum width, every token that stands in a group which is laid
/// out flat ends within the width, on whatever line of the group it
/// stands: a group is laid out flat only where it fits.
pub proof fn lemma_flat_groups_fit(
    tokens: Seq<Token>,
    items: Seq<(usize, Marker)>,
    max_width: usize,
    indent_width: usize,
)
    requires
        items.len() <= usize::MAX,
    ensures
        ({
            let page = page_for(tokens, items, Some(max_width), indent_width);
            &&& page.kept_tokens().len() == tokens.len()
            &&& forall|i: int|
                0 <= i < tokens.len() && page.kept_tokens()[i] ==> #[trigger] end_col(
                    page.layout(),
                    widths_of(tokens),
                    indent_width,
                    i,
                ) <= max_width
        }),
{
    let page = page_for(tokens, items, Some(max_width), indent_width);
    lemma_layout_len(page);
    lemma_run_sound(page, page.steps());
}

/// Width respect.
///
/// Under a maximum width, on markers in token order, every token ends
/// within the width unless no break could be taken in front of it: it
/// stands on its line behind the start of the line or behind a flat group,
/// with no soft break of a group between. Such a token is too wide for the
/// line, or is parted by nothing but spaces from what stands in front of
/// it, or trails behind a group that fits.
pub proof fn lemma_width_respected(
    tokens: Seq<Token>,
    items: Seq<(usize, Marker)>,
    max_width: usize,
    indent_width: usize,
    i: int,
)
    requires
        items.len() <= usize::MAX,
        ordered(items, tokens.len()),
        0 <= i < tokens.len(),
    ensures
        ({
            let page = page_for(tokens, items, Some(max_width), indent_width);
            &&& page.layout().len() == tokens.len()
            &&& end_col(page.layout(), widths_of(tokens), indent_width, i) <= max_width || behind(
                items,
                page.layout(),
                page.eased_tokens(),
                i,
            )
        }),
{
    let page = page_for(tokens, items, Some(max_width), indent_width);
    lemma_layout_len(page);
    lemma_run_sound(page, page.steps());
    lemma_run_mindful(page, page.steps());
}

/// A group is decided once: as long as it is open it stays flat or stays
/// broken. So the soft breaks that stand directly in one group, such as
/// those behind the commas of one list, are all taken or all left: under a
/// maximum width they are taken if the group is broken, and left if it is
/// flat.
pub proof fn lemma_group_decided_once(page: Page, steps: nat, depth: int)
    requires
        0 <= depth < page.run(steps).groups.len(),
        depth < page.run(steps + 1).groups.len(),
    ensures
        page.run(steps + 1).groups[depth] == page.run(steps).groups[depth],
        page.due(page.run(steps).next, page.run(steps).leads.len()) && page.items[page.run(
            steps,
        ).next as int].1 == Marker::Break(Break::Soft) ==> (page.run(steps + 1).gap is Line
            <==> page.run(steps).gap is Line || (page.max_width is Some && !page.run(
            steps,
        ).groups.last().1)),
{
    let c = page.run(steps);
    assert(page.run(steps + 1) == page.step(c));
}

/// A group that fits is flat: where a group opens that, laid out flat from
/// the column at which it starts, ends within the maximum width, the
/// group is laid out flat, whatever follows it. Then none of the soft
/// breaks in it is taken, such as those behind the commas of a list.
pub proof fn lemma_fitting_group_is_flat(page: Page, steps: nat, id: usize)
    requires
        page.due(page.run(steps).next, page.run(steps).leads.len()),
        page.items[page.run(steps).next as int].1 == Marker::Group(id),
        page.run(steps).groups.len() == 0 || page.run(steps).groups.last().0 != id,
        page.fits(page.run(steps), id),
    ensures
        page.run(steps + 1).groups == page.run(steps).groups.push((id, true)),
        page.run(steps + 1).in_flat(),
        !page.breaking(page.run(steps + 1)),
{
    let c = page.run(steps);
    assert(page.run(steps + 1) == page.step(c));
}

/// Without a maximum width no optional break is taken: a token starts a new
/// line only where a marker in front of it forces that.
pub proof fn lemma_no_width_no_soft_break(page: Page, t: int)
    requires
        page.max_width is None,
        ordered(page.items, page.widths.len()),
        1 <= t < page.widths.len(),
    ensures
        t < page.layout().len(),
        page.layout()[t] is Line ==> line_forced(page.items, t as nat, page.items.len()),
{
    lemma_run_unhurried(page, page.steps());
    lemma_run_progress(page, page.steps());
}

/// A width that no line passes changes nothing.
///
/// Where no token of the text printed without a maximum width ends beyond
/// a width, the text printed under that width is the same text: every
/// group fits, so every soft break stays a space.
pub proof fn lemma_wide_enough_changes_nothing(
    tokens: Seq<Token>,
    items: Seq<(usize, Marker)>,
    max_width: usize,
    indent_width: usize,
)
    requires
        items.len() <= usize::MAX,
        forall|i: int|
            0 <= i < tokens.len() ==> #[trigger] end_col(
                page_for(tokens, items, None, indent_width).layout(),
                widths_of(tokens),
                indent_width,
                i,
            ) <= max_width,
    ensures
        printed(tokens, items, Some(max_width), indent_width) == printed(
            tokens,
            items,
            None,
            indent_width,
        ),
{
    let page = page_for(tokens, items, Some(max_width), indent_width);
    assert(free(page) == page_for(tokens, items, None, indent_width));
    assert(roomy(page, max_width as nat));
    lemma_roomy_run(page, page.steps());
}

/// The column behind a token is the length of its line up to there: of the
/// text printed up to token `k - 1`, as many characters stand behind the
/// last line feed, where none of these tokens holds a line feed itself.
pub proof fn lemma_end_col_is_line_length(
    leads: Seq<Lead>,
    tokens: Seq<Token>,
    indent_width: usize,
    k: nat,
)
    requires
        0 < k <= tokens.len(),
        k <= leads.len(),
        leads[0] == Lead::Inline(0),
        forall|i: int| 0 <= i < k ==> line_feeds(#[trigger] tokens[i].text@) == 0,
    ensures
        last_line_len(woven(leads, texts_of(tokens), indent_width, k)) == end_col(
            leads,
            widths_of(tokens),
            indent_width,
            k - 1,
        ),
    decreases k,
{
    let texts = texts_of(tokens);
    let before = woven(leads, texts, indent_width, (k - 1) as nat);
    let gap = lead_text(leads[k - 1], indent_width);
    let text = texts[k - 1];
    assert(line_feeds(tokens[k - 1].text@) == 0);
    lemma_last_line_concat(before + gap, text);
    lemma_last_line_concat(before, gap);
    if k > 1 {
        lemma_end_col_is_line_length(leads, tokens, indent_width, (k - 1) as nat);
    }
    match leads[k - 1] {
        Lead::Inline(n) => {
            lemma_spaces_no_line_feed(n as nat);
        },
        Lead::Line { blank, indent } => {
            let n = indent as nat * indent_width as nat;
            let head = if blank {
                seq!['\n', '\n']
            } else {
                seq!['\n']
            };
            lemma_spaces_no_line_feed(n);
            lemma_line_feeds_concat(head, spaces(n));
            lemma_last_line_concat(head, spaces(n));
            lemma_last_line_spaces(n);
            assert(line_feeds(head) >= 1) by {
                assert(head.last() == '\n');
            }
        },
    }
}

/// A marker that asks for whitespace stands alone: it is all that asks for
/// whitespace in front of its token.
pub proof fn lemma_marker_stands_alone(tree: ModelicaCST, j: int)
    requires
        tree.tokens().len() <= usize::MAX,
        0 <= j < markers_of(tree).len(),
        spacing(markers_of(tree)[j].1),
    ensures
        uniform(
            markers_of(tree),
            markers_of(tree)[j].0 as nat,
            markers_of(tree).len(),
            markers_of(tree)[j].1,
        ),
        spaced(markers_of(tree), markers_of(tree)[j].0 as nat, markers_of(tree).len()),
{
    let items = markers_of(tree);
    lemma_one_marker_per_boundary(tree);
    assert forall|i: int|
        0 <= i < items.len() && (#[trigger] items[i]).0 == items[j].0 && spacing(
            items[i].1,
        ) implies items[i].1 == items[j].1 by {
        if i < j {
            assert(items[i].0 < items[j].0);
        } else if j < i {
            assert(items[j].0 < items[i].0);
        }
    }
}

/// Comment attachment.
///
/// Between two adjacent tokens of a tree of which one is a comment, the
/// printed whitespace is what [`comment_marker`] demands, whatever the
/// policy, the groups and the width: a comment that followed a token on its
/// line still follows it there, one space away; a comment on a line of its
/// own starts a line; the token after a comment starts a line, so a line
/// comment never takes in what follows it; and where a line starts, one
/// empty line stands in front of it exactly where the source had one or
/// more.
pub proof fn lemma_comments_attached(
    tree: ModelicaCST,
    max_width: Option<usize>,
    indent_width: usize,
    t: int,
)
    requires
        tree.tokens().len() <= usize::MAX,
        markers_of(tree).len() <= usize::MAX,
        1 <= t < tree.tokens().len(),
    ensures
        ({
            let tokens = tree.tokens();
            let layout = page_for(tokens, markers_of(tree), max_width, indent_width).layout();
            &&& layout.len() == tokens.len()
            &&& comment_marker(tokens[t - 1], tokens[t]) matches Some(m) ==> agrees(
                layout[t],
                asked(m, false),
            )
        }),
{
    let tokens = tree.tokens();
    let items = markers_of(tree);
    let page = page_for(tokens, items, max_width, indent_width);
    let done = after_node(tree.root, Walk::start());
    lemma_layout_len(page);
    lemma_node_extends(tree.root, Walk::start());
    assert(done.tokens =~= tokens);
    lemma_markers_well_formed(tree);
    lemma_node_observed(tree.root, Walk::start(), tokens);
    match comment_marker(tokens[t - 1], tokens[t]) {
        Some(m) => {
            assert(spaced_between(items, t, 0, items.len() as int));
            let j = choose|j: int|
                0 <= j < items.len() && 0 <= j < items.len() && (#[trigger] items[j]).0 == t
                    && spacing(items[j].1);
            assert(obeys(items, j, 0, tokens));
            lemma_marker_stands_alone(tree, j);
            lemma_layout_answers(page, t, m);
        },
        None => {},
    }
}

/// Where a comment stands.
///
/// In the formatted text of a tree, a comment that followed a token on the
/// line of the token still follows it there, one space away, and the token
/// behind a comment, be it another comment, starts a new line.
pub proof fn lemma_comment_placement(
    tree: ModelicaCST,
    max_width: Option<usize>,
    indent_width: usize,
    t: int,
)
    requires
        tree.tokens().len() <= usize::MAX,
        markers_of(tree).len() <= usize::MAX,
        1 <= t < tree.tokens().len(),
    ensures
        ({
            let tokens = tree.tokens();
            let layout = page_for(tokens, markers_of(tree), max_width, indent_width).layout();
            &&& layout.len() == tokens.len()
            &&& tokens[t - 1].kind.is_comment() ==> layout[t] is Line
            &&& tokens[t].kind.is_comment() && !tokens[t - 1].kind.is_comment() && tokens[t
                - 1].same_line(tokens[t]) ==> layout[t] == Lead::Inline(1)
            &&& tokens[t].kind.is_comment() && !tokens[t - 1].same_line(tokens[t]) ==> layout[t] is Line
        }),
{
    lemma_comments_attached(tree, max_width, indent_width, t);
}

/// How an equation and an assignment are laid out.
///
/// Each forms a group. What stands in front of the equal sign or the
/// assignment sign is parted from it by one space, so the left side and
/// the sign stay on one line. Behind the sign stands a soft break, the
/// only one directly in the group, and the right side is indented by one
/// level: where the line does not fit, it is broken behind the sign.
pub proof fn lemma_equation_policy(
    left: SyntaxKind,
    right: SyntaxKind,
    first: SyntaxKind,
    lead: bool,
)
    ensures
        grouped(SyntaxKind::Equation) && grouped(SyntaxKind::Statement),
        indented(SyntaxKind::Equation, SyntaxKind::Expression) && indented(
            SyntaxKind::Statement,
            SyntaxKind::Expression,
        ),
        !opens(left) && left != SyntaxKind::Comma && left != SyntaxKind::Equal && left
            != SyntaxKind::Assign ==> separator(
            SyntaxKind::Equation,
            left,
            SyntaxKind::Equal,
            SyntaxKind::Equal,
            lead,
        ) == Sep::Space && separator(
            SyntaxKind::Statement,
            left,
            SyntaxKind::Assign,
            SyntaxKind::Assign,
            lead,
        ) == Sep::Space,
        !closes(first) && !attaches(right, first) ==> separator(
            SyntaxKind::Equation,
            SyntaxKind::Equal,
            right,
            first,
            lead,
        ) == Sep::Soft && separator(SyntaxKind::Statement, SyntaxKind::Assign, right, first, lead)
            == Sep::Soft,
{
    reveal(grouped);
    reveal(indented);
    reveal(separator);
}

/// The printer at the soft break of a plain equation to which the walk
/// over a tree comes: it has read the markers in front of the soft break,
/// stands in front of the first token of the right side, and the
/// innermost group is the group of the equation, as it was decided in
/// front of the equation.
pub open spec fn at_soft_break(
    tree: ModelicaCST,
    n: SyntaxNode,
    w: Walk,
    page: Page,
) -> bool {
    let items = markers_of(tree);
    let o = w.items.len() as int;
    let p = behind_sign(n, w).items.len() as int;
    let t = behind_sign(n, w).tokens.len() as int;
    let front = page.run((o + w.tokens.len()) as nat);
    let soft = page.run((p + t) as nat);
    &&& 2 <= t < tree.tokens().len()
    &&& ordered(items, tree.tokens().len())
    &&& 0 <= o < p < items.len()
    &&& items[p] == (t as usize, Marker::Break(Break::Soft))
    &&& items[p - 1] == ((t - 1) as usize, Marker::Space(1))
    &&& front.next == o
    &&& soft.next == p
    &&& soft.leads.len() == t
    &&& page.due(soft.next, soft.leads.len())
    &&& soft.groups.len() > 0
    &&& soft.groups.last() == (o as usize, front.in_flat() || page.fits(front, o as usize))
    &&& lies_in(n, w, after_node(tree.root, Walk::start()))
}

/// The printer comes to the soft break of every plain equation of a tree.
pub proof fn lemma_at_soft_break(
    tree: ModelicaCST,
    n: SyntaxNode,
    w: Walk,
    max_width: Option<usize>,
    indent_width: usize,
)
    requires
        tree.tokens().len() <= usize::MAX,
        markers_of(tree).len() <= usize::MAX,
        plain_equation(n),
        node_comes_to(tree.root, Walk::start(), n, w),
    ensures
        at_soft_break(tree, n, w, page_for(tree.tokens(), markers_of(tree), max_width, indent_width)),
{
    let items = markers_of(tree);
    let page = page_for(tree.tokens(), items, max_width, indent_width);
    let o = w.items.len() as int;
    let p = behind_sign(n, w).items.len() as int;
    lemma_markers_well_formed(tree);
    lemma_node_extends(tree.root, Walk::start());
    assert(after_node(tree.root, Walk::start()).tokens =~= tree.tokens());
    lemma_in_front_start(Walk::start());
    lemma_node_comes_to(tree.root, Walk::start(), n, w);
    lemma_equation_places(n, w, items);
    lemma_soft_break_in_its_group(page, o, p, o as usize);
}

/// The sign of an equation stands one space behind the left side.
pub proof fn lemma_equation_sign(
    tree: ModelicaCST,
    n: SyntaxNode,
    w: Walk,
    max_width: Option<usize>,
    indent_width: usize,
)
    requires
        tree.tokens().len() <= usize::MAX,
        markers_of(tree).len() <= usize::MAX,
        plain_equation(n),
        node_comes_to(tree.root, Walk::start(), n, w),
    ensures
        ({
            let page = page_for(tree.tokens(), markers_of(tree), max_width, indent_width);
            let t = behind_sign(n, w).tokens.len() as int;
            &&& 2 <= t < tree.tokens().len()
            &&& page.layout().len() == tree.tokens().len()
            &&& page.layout()[t - 1] == Lead::Inline(1)
        }),
{
    let page = page_for(tree.tokens(), markers_of(tree), max_width, indent_width);
    let p = behind_sign(n, w).items.len() as int;
    let t = behind_sign(n, w).tokens.len() as int;
    lemma_layout_len(page);
    lemma_at_soft_break(tree, n, w, max_width, indent_width);
    lemma_marker_stands_alone(tree, p - 1);
    lemma_layout_answers(page, t - 1, Marker::Space(1));
}

/// Where the group of an equation is flat, the right side follows the
/// sign one space behind it.
pub proof fn lemma_equation_flat(
    tree: ModelicaCST,
    n: SyntaxNode,
    w: Walk,
    max_width: Option<usize>,
    indent_width: usize,
)
    requires
        tree.tokens().len() <= usize::MAX,
        markers_of(tree).len() <= usize::MAX,
        plain_equation(n),
        node_comes_to(tree.root, Walk::start(), n, w),
        ({
            let page = page_for(tree.tokens(), markers_of(tree), max_width, indent_width);
            !page.breaking(page.run(behind_sign(n, w).items.len() + behind_sign(n, w).tokens.len()))
        }),
    ensures
        ({
            let page = page_for(tree.tokens(), markers_of(tree), max_width, indent_width);
            let t = behind_sign(n, w).tokens.len() as int;
            &&& t < page.layout().len()
            &&& page.layout()[t] == Lead::Inline(1)
        }),
{
    let items = markers_of(tree);
    let page = page_for(tree.tokens(), items, max_width, indent_width);
    let p = behind_sign(n, w).items.len() as int;
    let t = behind_sign(n, w).tokens.len() as int;
    lemma_layout_len(page);
    lemma_at_soft_break(tree, n, w, max_width, indent_width);
    lemma_one_marker_per_boundary(tree);
    let sp = (p + t) as nat;
    let soft = page.run(sp);
    let after = page.run(sp + 1);
    assert(after == page.step(soft));
    lemma_run_progress(page, sp + 1);
    let rest = (page.steps() - (sp + 1)) as nat;
    lemma_run_close(page, sp);
    assert(!spaced(items, t as nat, p as nat)) by {
        if spaced(items, t as nat, p as nat) {
            let j = choose|j: int|
                0 <= j < p && j < items.len() && (#[trigger] items[j]).0 == t as nat && spacing(
                    items[j].1,
                );
            assert(items[j].0 < items[p].0);
        }
    }
    assert(after.gap == Gap::Inline(1));
    assert forall|j: int|
        after.next <= j < items.len() && (#[trigger] items[j]).0 == after.leads.len() implies !spacing(
        items[j].1,
    ) by {
        if spacing(items[j].1) {
            assert(items[p].0 < items[j].0);
        }
    }
    lemma_space_sticks(page, sp + 1, rest);
}

/// The place in the markers at which the printer places the first token of
/// the right side of a plain equation.
pub proof fn lemma_equation_split(tree: ModelicaCST, n: SyntaxNode, w: Walk) -> (k: int)
    requires
        tree.tokens().len() <= usize::MAX,
        markers_of(tree).len() <= usize::MAX,
        plain_equation(n),
        node_comes_to(tree.root, Walk::start(), n, w),
    ensures
        splits(markers_of(tree), behind_sign(n, w).tokens.len() as int, k),
        behind_sign(n, w).items.len() + 2 <= k,
        k <= after_children(n, 3, w.place(Marker::Group(w.items.len() as usize))).0.items.len(),
{
    let items = markers_of(tree);
    let p = behind_sign(n, w).items.len() as int;
    let t = behind_sign(n, w).tokens.len() as int;
    let opened = w.place(Marker::Group(w.items.len() as usize));
    let three = after_children(n, 3, opened).0;
    lemma_markers_well_formed(tree);
    lemma_node_extends(tree.root, Walk::start());
    assert(after_node(tree.root, Walk::start()).tokens =~= tree.tokens());
    lemma_in_front_start(Walk::start());
    lemma_node_comes_to(tree.root, Walk::start(), n, w);
    lemma_right_side_closes(n, w);
    lemma_walks_lead(n, w);
    let last = three.items.len() - 1;
    assert(items[last] == three.items[last]);
    assert(items[p + 1].0 == t) by {
        lemma_equation_marks(n, w);
        let broken = behind_sign(n, w).place(Marker::Break(Break::Soft)).place(
            Marker::IndentDelta(Shift::Push),
        );
        lemma_element_extends(n.children@[2], broken);
        assert(three.items.take(broken.items.len() as int)[p + 1] == broken.items[p + 1]);
        assert(items[p + 1] == three.items[p + 1]);
    }
    assert forall|j: int| 0 <= j < p + 2 implies (#[trigger] items[j]).0 <= t by {
        assert(items[j].0 <= items[p + 1].0);
    }
    assert forall|j: int| last <= j < items.len() implies (#[trigger] items[j]).0 > t by {
        assert(items[last].0 <= items[j].0);
    }
    lemma_split(items, tree.tokens().len(), t, p + 2, last)
}

/// Where the group of an equation is broken, the right side starts a new
/// line, indented deeper than the level in front of the equation.
pub proof fn lemma_equation_broken(
    tree: ModelicaCST,
    n: SyntaxNode,
    w: Walk,
    max_width: Option<usize>,
    indent_width: usize,
)
    requires
        tree.tokens().len() <= usize::MAX,
        markers_of(tree).len() <= usize::MAX,
        plain_equation(n),
        node_comes_to(tree.root, Walk::start(), n, w),
        ({
            let page = page_for(tree.tokens(), markers_of(tree), max_width, indent_width);
            page.breaking(page.run(behind_sign(n, w).items.len() + behind_sign(n, w).tokens.len()))
        }),
    ensures
        ({
            let page = page_for(tree.tokens(), markers_of(tree), max_width, indent_width);
            let t = behind_sign(n, w).tokens.len() as int;
            let front = page.run(w.items.len() + w.tokens.len());
            &&& t < page.layout().len()
            &&& page.layout()[t] matches Lead::Line { indent, .. } && indent > front.indent
        }),
{
    let items = markers_of(tree);
    let page = page_for(tree.tokens(), items, max_width, indent_width);
    let o = w.items.len() as int;
    let p = behind_sign(n, w).items.len() as int;
    let t = behind_sign(n, w).tokens.len() as int;
    lemma_layout_len(page);
    lemma_at_soft_break(tree, n, w, max_width, indent_width);
    let sp = (p + t) as nat;
    let soft = page.run(sp);
    assert(page.run(sp + 1) == page.step(soft));
    let k = lemma_equation_split(tree, n, w);
    lemma_markers_well_formed(tree);
    lemma_node_extends(tree.root, Walk::start());
    assert(after_node(tree.root, Walk::start()).tokens =~= tree.tokens());
    assert(after_node(n, w).items.len() <= items.len());
    lemma_state_at(page, k, t);
    lemma_line_sticks(page, sp + 1, (k + t - (sp + 1)) as nat);
    lemma_run_indent(page, (k + t) as nat);
    lemma_run_indent(page, (o + w.tokens.len()) as nat);
    lemma_equation_level(n, w, items, k);
    lemma_run_sound(page, (k + t) as nat);
    lemma_leads_kept(page, (k + t + 1) as nat, page.steps());
    lemma_run_progress(page, (k + t + 1) as nat);
}

/// How an equation is broken.
///
/// Let the walk over a tree come in the state `w` to an equation, wherever
/// it stands in the tree, with a left side, an equal sign and a right side,
/// none parted from the next by a comment. In the text formatted under a
/// maximum width the sign stands one space behind the left side, on its
/// line. The first token of the right side starts a new line exactly where
/// the equation does not fit: where the printer, as it stands in front of
/// the equation, is in no flat group and the group of the equation, laid
/// out flat, does not end within the width. That line is indented deeper
/// than the level at which the printer stands in front of the equation.
/// Where the equation fits, the right side follows the sign one space
/// behind it.
pub proof fn lemma_equation_breaks_behind_sign(
    tree: ModelicaCST,
    n: SyntaxNode,
    w: Walk,
    max_width: usize,
    indent_width: usize,
)
    requires
        tree.tokens().len() <= usize::MAX,
        markers_of(tree).len() <= usize::MAX,
        plain_equation(n),
        node_comes_to(tree.root, Walk::start(), n, w),
    ensures
        ({
            let page = page_for(tree.tokens(), markers_of(tree), Some(max_width), indent_width);
            let t = behind_sign(n, w).tokens.len() as int;
            let front = page.run(w.items.len() + w.tokens.len());
            let fits = front.in_flat() || page.fits(front, w.items.len() as usize);
            &&& 2 <= t < tree.tokens().len()
            &&& page.layout().len() == tree.tokens().len()
            &&& page.layout()[t - 1] == Lead::Inline(1)
            &&& !fits ==> (page.layout()[t] matches Lead::Line { indent, .. } && indent
                > front.indent)
            &&& fits ==> page.layout()[t] == Lead::Inline(1)
        }),
{
    let page = page_for(tree.tokens(), markers_of(tree), Some(max_width), indent_width);
    let front = page.run(w.items.len() + w.tokens.len());
    lemma_at_soft_break(tree, n, w, Some(max_width), indent_width);
    lemma_equation_sign(tree, n, w, Some(max_width), indent_width);
    if front.in_flat() || page.fits(front, w.items.len() as usize) {
        lemma_equation_flat(tree, n, w, Some(max_width), indent_width);
    } else {
        lemma_equation_broken(tree, n, w, Some(max_width), indent_width);
    }
}

/// Where the line that closes a class stands.
///
/// Let the walk over a tree come in the state `w` to a class with a body,
/// wherever it stands in the tree, whose child `e` is the keyword that
/// closes it. In the formatted text the keyword starts a new line, at the
/// level at which the walk came to the class: the level at which the
/// printer stands when it has read the markers in front of the name of the
/// class, whatever the body in between has indented.
pub proof fn lemma_class_closes_at_its_level(
    tree: ModelicaCST,
    n: SyntaxNode,
    e: int,
    w: Walk,
    max_width: Option<usize>,
    indent_width: usize,
)
    requires
        tree.tokens().len() <= usize::MAX,
        markers_of(tree).len() <= usize::MAX,
        plain_class(n, e),
        node_comes_to(tree.root, Walk::start(), n, w),
    ensures
        ({
            let page = page_for(tree.tokens(), markers_of(tree), max_width, indent_width);
            let t = after_children(n, e as nat, w).0.tokens.len() as int;
            let o = w.items.len() as int;
            &&& 1 <= t < page.layout().len()
            &&& o < markers_of(tree).len()
            &&& page.run((o + markers_of(tree)[o].0) as nat).next == o
            &&& page.layout()[t] matches Lead::Line { indent, .. } && indent == page.run(
                (o + markers_of(tree)[o].0) as nat,
            ).indent && indent == indent_level(w.items)
        }),
{
    let items = markers_of(tree);
    let page = page_for(tree.tokens(), items, max_width, indent_width);
    let (before, local) = after_children(n, e as nat, w);
    let t = before.tokens.len() as int;
    let o = w.items.len() as int;
    let spot = at_end(n, e, w);
    let k = spot.items.len() as int;
    let two = after_children(n, (e + 2) as nat, w).0;
    lemma_layout_len(page);
    lemma_markers_well_formed(tree);
    lemma_node_extends(tree.root, Walk::start());
    assert(after_node(tree.root, Walk::start()).tokens =~= tree.tokens());
    lemma_in_front_start(Walk::start());
    lemma_node_comes_to(tree.root, Walk::start(), n, w);
    lemma_node_extends(n, w);
    lemma_class_marks(n, e, w);
    lemma_children_extends(n, e as nat, w);
    // the markers of the class in the markers of the tree
    let pm = before.items.len() as int;
    assert(two.items.len() == k + 1);
    assert forall|j: int| 0 <= j < two.items.len() implies items[j] == two.items[j] by {
        assert(after_node(n, w).items[j] == two.items[j]);
    }
    assert(two.items[k] == ((t + 1) as usize, Marker::Space(1)));
    assert forall|j: int| pm <= j < k implies items[j] == spot.items[j] by {
        assert(two.items[j] == spot.items[j]);
    }
    assert(items[pm] == spot.items[pm]);
    assert(splits(items, t, k)) by {
        assert forall|j: int| 0 <= j < k implies (#[trigger] items[j]).0 <= t by {
            assert(items[j].0 <= items[k - 1].0);
            assert(items[k - 1] == spot.items[k - 1]);
        }
        assert forall|j: int| k <= j < items.len() implies (#[trigger] items[j]).0 > t by {
            assert(items[k].0 <= items[j].0);
        }
    }
    // the line
    assert(line_forced(items, t as nat, items.len())) by {
        assert(forces_line(items[pm].1));
        assert(items[pm].0 == t as nat);
    }
    lemma_layout_answers(page, t, Marker::Break(Break::Hard));
    lemma_state_at(page, k, t);
    lemma_leads_kept(page, (k + t + 1) as nat, page.steps());
    lemma_run_progress(page, (k + t + 1) as nat);
    // the level
    lemma_run_indent(page, (k + t) as nat);
    lemma_run_sound(page, (k + t) as nat);
    assert(items.take(k) =~= spot.items) by {
        assert forall|j: int| 0 <= j < k implies items[j] == spot.items[j] by {
            assert(two.items[j] == spot.items[j]);
        }
    }
    assert(o < pm + 1);
    lemma_step_of(page, o);
    lemma_run_indent(page, (o + items[o].0) as nat);
    assert(items.take(o) =~= w.items) by {
        assert forall|j: int| 0 <= j < o implies items[j] == w.items[j] by {
            assert(after_node(n, w).items.take(o)[j] == w.items[j]);
        }
    }
}

/// The level does not change over markers that do not indent.
proof fn lemma_level_kept(items: Seq<(usize, Marker)>, a: int, b: int)
    requires
        0 <= a <= b <= items.len(),
        forall|j: int| a <= j < b ==> !((#[trigger] items[j]).1 is IndentDelta),
    ensures
        indent_level(items.take(b)) == indent_level(items.take(a)),
    decreases b - a,
{
    if a < b {
        lemma_level_kept(items, a, b - 1);
        assert(items.take(b).drop_last() =~= items.take(b - 1));
        assert(items.take(b).last() == items[b - 1]);
    }
}

/// The line that closes a class stands under the line that opens it.
///
/// Let the walk over a tree come in the state `w` to a class with a body,
/// wherever it stands in the tree, whose child `e` is the keyword that
/// closes it. Let token `s` start the line on which the name of the class
/// stands: it stands in front of the name, and no marker between it and
/// the name changes the indentation. In the formatted text the keyword
/// that closes the class starts a line at the level of that line, and so
/// at its column.
pub proof fn lemma_class_closes_under_its_header(
    tree: ModelicaCST,
    n: SyntaxNode,
    e: int,
    w: Walk,
    s: int,
    max_width: Option<usize>,
    indent_width: usize,
)
    requires
        tree.tokens().len() <= usize::MAX,
        markers_of(tree).len() <= usize::MAX,
        plain_class(n, e),
        node_comes_to(tree.root, Walk::start(), n, w),
        0 <= s < w.tokens.len(),
        forall|j: int|
            0 <= j < w.items.len() && (#[trigger] w.items[j]).0 > s ==> !(w.items[j].1
                is IndentDelta),
    ensures
        ({
            let page = page_for(tree.tokens(), markers_of(tree), max_width, indent_width);
            let t = after_children(n, e as nat, w).0.tokens.len() as int;
            &&& s < t < page.layout().len()
            &&& page.layout()[t] is Line
            &&& page.layout()[s] matches Lead::Line { indent, .. } ==> page.layout()[t]->Line_indent
                == indent
            &&& page.layout()[s] is Line ==> end_col(
                page.layout(),
                page.widths,
                indent_width,
                t,
            ) - page.widths[t] == end_col(page.layout(), page.widths, indent_width, s)
                - page.widths[s]
        }),
{
    let items = markers_of(tree);
    let page = page_for(tree.tokens(), items, max_width, indent_width);
    let o = w.items.len() as int;
    lemma_class_closes_at_its_level(tree, n, e, w, max_width, indent_width);
    lemma_layout_len(page);
    lemma_markers_well_formed(tree);
    lemma_node_extends(tree.root, Walk::start());
    assert(after_node(tree.root, Walk::start()).tokens =~= tree.tokens());
    lemma_in_front_start(Walk::start());
    lemma_node_comes_to(tree.root, Walk::start(), n, w);
    lemma_node_steady(n, w);
    lemma_children_extends(n, e as nat, w);
    lemma_class_marks(n, e, w);
    assert(o < after_node(n, w).items.len());
    assert(items[o] == after_node(n, w).items[o]);
    assert(items[o].0 >= w.tokens.len());
    assert forall|j: int| o <= j < items.len() implies (#[trigger] items[j]).0 > s by {
        assert(items[o].0 <= items[j].0);
    }
    let k = lemma_split(items, tree.tokens().len(), s, 0, o);
    lemma_state_at(page, k, s);
    lemma_leads_kept(page, (k + s + 1) as nat, page.steps());
    lemma_run_progress(page, (k + s + 1) as nat);
    lemma_run_indent(page, (k + s) as nat);
    lemma_run_sound(page, (k + s) as nat);
    assert forall|j: int| 0 <= j < o implies items[j] == w.items[j] by {
        assert(after_node(n, w).items.take(o)[j] == w.items[j]);
    }
    assert(items.take(o) =~= w.items);
    lemma_level_kept(items, k, o);
}

/// The line that closes a class stands under the keyword that opens it.
///
/// Let the walk over a tree come in the state `w0` to the definition of a
/// class with a body: keywords, the first of which is token `s` of the
/// text, and behind them the class, whose child `e` is the keyword that
/// closes it. In the formatted text the keyword that closes the class
/// starts a line at the level in front of the definition. Where the first
/// keyword of the definition starts a line, both lines stand at one level,
/// and so at one column.
pub proof fn lemma_class_closes_under_its_keyword(
    tree: ModelicaCST,
    d: SyntaxNode,
    n: SyntaxNode,
    e: int,
    w0: Walk,
    max_width: Option<usize>,
    indent_width: usize,
)
    requires
        tree.tokens().len() <= usize::MAX,
        markers_of(tree).len() <= usize::MAX,
        plain_definition(d, n),
        plain_class(n, e),
        node_comes_to(tree.root, Walk::start(), d, w0),
    ensures
        ({
            let page = page_for(tree.tokens(), markers_of(tree), max_width, indent_width);
            let s = w0.tokens.len() as int;
            let t = after_children(n, e as nat, at_class(d, w0)).0.tokens.len() as int;
            &&& s < t < page.layout().len()
            &&& page.layout()[t] matches Lead::Line { indent, .. } && indent == indent_level(
                w0.items,
            )
            &&& page.layout()[s] matches Lead::Line { indent, .. } ==> page.layout()[t]->Line_indent
                == indent
        }),
{
    let w = at_class(d, w0);
    let s = w0.tokens.len() as int;
    let o = w0.items.len() as int;
    lemma_markers_well_formed(tree);
    lemma_node_extends(tree.root, Walk::start());
    assert(after_node(tree.root, Walk::start()).tokens =~= tree.tokens());
    lemma_in_front_start(Walk::start());
    lemma_node_comes_to(tree.root, Walk::start(), d, w0);
    lemma_definition_comes_to_class(d, n, w0);
    lemma_node_comes_to_on(tree.root, Walk::start(), d, w0, n, w);
    assert forall|j: int| 0 <= j < w.items.len() && (#[trigger] w.items[j]).0 > s implies !(
    w.items[j].1 is IndentDelta) by {
        if j < o {
            reveal(in_front);
            assert(w.items[j] == w0.items[j]);
        }
    }
    lemma_class_closes_at_its_level(tree, n, e, w, max_width, indent_width);
    lemma_class_closes_under_its_header(tree, n, e, w, s, max_width, indent_width);
    assert(w.items.take(w.items.len() as int) =~= w.items);
    assert(w.items.take(o) =~= w0.items);
    lemma_level_kept(w.items, o, w.items.len() as int);
}

/// How a class ends.
///
/// The line that closes a class starts a new line, and is not indented in
/// the class: it stands at the level of the line that opens the class.
pub proof fn lemma_class_end_policy(left: SyntaxKind, lead: bool)
    ensures
        !opens(left) && left != SyntaxKind::Comma ==> separator(
            SyntaxKind::LongClassSpecifier,
            left,
            SyntaxKind::EndKw,
            SyntaxKind::EndKw,
            lead,
        ) == Sep::Member,
        !indented(SyntaxKind::LongClassSpecifier, SyntaxKind::EndKw),
        !indented(SyntaxKind::LongClassSpecifier, SyntaxKind::Ident),
        !indented(SyntaxKind::LongClassSpecifier, SyntaxKind::Composition),
        !indented(SyntaxKind::Composition, SyntaxKind::ElementList),
        forall|child: SyntaxKind| indented(SyntaxKind::ElementList, child),
{
    reveal(indented);
    reveal(separator);
}

/// The line terminators of the common systems may stand behind a printed
/// text: a line feed, or a carriage return and a line feed.
pub proof fn lemma_line_terminators()
    ensures
        terminates("\n"@),
        terminates("\r\n"@),
{
    reveal_strlit("\n");
    reveal_strlit("\r\n");
}

/// One decision for each boundary.
///
/// In the markers of a tree, every marker that asks for whitespace stands
/// between two tokens, and no two of them stand in front of the same
/// token.
pub proof fn lemma_one_marker_per_boundary(tree: ModelicaCST)
    requires
        tree.tokens().len() <= usize::MAX,
    ensures
        forall|j: int|
            0 <= j < markers_of(tree).len() && spacing((#[trigger] markers_of(tree)[j]).1) ==> 1
                <= markers_of(tree)[j].0 < tree.tokens().len(),
        forall|a: int, b: int|
            0 <= a < b < markers_of(tree).len() && spacing((#[trigger] markers_of(tree)[a]).1)
                && spacing((#[trigger] markers_of(tree)[b]).1) ==> markers_of(tree)[a].0
                < markers_of(tree)[b].0,
{
    lemma_node_extends(tree.root, Walk::start());
    assert(after_node(tree.root, Walk::start()).tokens =~= tree.tokens());
    lemma_node_apart(tree.root, Walk::start());
}

/// The lines of two adjacent tokens are as the whitespace between them
/// says: the second token starts on the line on which the first ends
/// exactly where no line is broken between them, and an empty line lies
/// between them exactly where one is printed.
pub open spec fn reflects(lead: Lead, prev: Token, next: Token) -> bool {
    &&& prev.same_line(next) == (lead is Inline)
    &&& prev.blank_before(next) == (lead matches Lead::Line { blank, .. } && blank)
}

/// The tokens `moved` stand on the lines on which the printer puts the
/// tokens of `tree`.
pub open spec fn relaid(
    tree: ModelicaCST,
    moved: Seq<Token>,
    max_width: Option<usize>,
    indent_width: usize,
) -> bool {
    forall|t: int|
        1 <= t < tree.tokens().len() ==> #[trigger] reflects_at(
            page_for(tree.tokens(), markers_of(tree), max_width, indent_width).layout(),
            moved,
            t,
        )
}

/// Token `t` and the token before it stand as the whitespace between them
/// says.
pub open spec fn reflects_at(leads: Seq<Lead>, moved: Seq<Token>, t: int) -> bool {
    reflects(leads[t], moved[t - 1], moved[t])
}

/// Between moved tokens a comment demands what it demanded before.
proof fn lemma_comment_settled(
    tree: ModelicaCST,
    moved: Seq<Token>,
    max_width: Option<usize>,
    indent_width: usize,
    t: int,
)
    requires
        tree.tokens().len() <= usize::MAX,
        markers_of(tree).len() <= usize::MAX,
        all_alike(tree.tokens(), moved),
        relaid(tree, moved, max_width, indent_width),
        1 <= t < tree.tokens().len(),
    ensures
        comment_marker(moved[t - 1], moved[t]) == comment_marker(
            tree.tokens()[t - 1],
            tree.tokens()[t],
        ),
{
    let all = tree.tokens();
    lemma_comments_attached(tree, max_width, indent_width, t);
    assert(alike(all[t - 1], moved[t - 1]));
    assert(alike(all[t], moved[t]));
    let lead = page_for(all, markers_of(tree), max_width, indent_width).layout()[t];
    assert(reflects_at(
        page_for(all, markers_of(tree), max_width, indent_width).layout(),
        moved,
        t,
    ));
}

/// The lines of moved tokens ask for the plain line break that stands
/// between them in the markers.
proof fn lemma_line_settled(
    tree: ModelicaCST,
    moved: Seq<Token>,
    max_width: Option<usize>,
    indent_width: usize,
    j: int,
)
    requires
        tree.tokens().len() <= usize::MAX,
        markers_of(tree).len() <= usize::MAX,
        relaid(tree, moved, max_width, indent_width),
        0 <= j < markers_of(tree).len(),
        is_line(markers_of(tree)[j].1),
        1 <= markers_of(tree)[j].0 < tree.tokens().len(),
    ensures
        line_break(moved[markers_of(tree)[j].0 - 1], moved[markers_of(tree)[j].0 as int])
            == markers_of(tree)[j].1,
{
    let all = tree.tokens();
    let items = markers_of(tree);
    let m = items[j].1;
    let t = items[j].0 as int;
    let page = page_for(all, items, max_width, indent_width);
    let done = after_node(tree.root, Walk::start());
    lemma_node_extends(tree.root, Walk::start());
    assert(done.tokens =~= all);
    lemma_markers_well_formed(tree);
    lemma_node_apart(tree.root, Walk::start());
    lemma_marker_stands_alone(tree, j);
    lemma_layout_answers(page, t, m);
    assert(reflects_at(page.layout(), moved, t));
}

/// The layout is stable: the part of idempotence that does not rest on
/// reading the printed text again.
///
/// Let a second tree differ from a tree at most in the lines of its tokens,
/// and let these be the lines on which the printer puts the tokens of the
/// first tree, as far as the whitespace between adjacent tokens shows.
/// Then the second tree has the same markers as the first, and is printed
/// as the same text.
pub proof fn lemma_layout_is_stable(
    tree: ModelicaCST,
    other: ModelicaCST,
    max_width: Option<usize>,
    indent_width: usize,
)
    requires
        tree.tokens().len() <= usize::MAX,
        markers_of(tree).len() <= usize::MAX,
        aligned_nodes(tree.root, other.root),
        relaid(tree, other.tokens(), max_width, indent_width),
    ensures
        markers_of(other) == markers_of(tree),
        printed(other.tokens(), markers_of(other), max_width, indent_width) == printed(
            tree.tokens(),
            markers_of(tree),
            max_width,
            indent_width,
        ),
{
    let all = tree.tokens();
    let moved = other.tokens();
    let items = markers_of(tree);
    let s = Setting { all, moved, items };
    lemma_aligned_leaves_upto(tree.root, other.root, tree.root.children@.len());
    assert(s.settled()) by {
        reveal(Setting::settled);
        assert forall|t: int| 1 <= t < all.len() implies comment_marker(
            moved[t - 1],
            #[trigger] moved[t],
        ) == comment_marker(all[t - 1], all[t]) by {
            lemma_comment_settled(tree, moved, max_width, indent_width, t);
        }
        assert forall|j: int|
            0 <= j < items.len() && is_line((#[trigger] items[j]).1) && 1 <= items[j].0
                < all.len() implies line_break(moved[items[j].0 - 1], moved[items[j].0 as int])
            == items[j].1 by {
            lemma_line_settled(tree, moved, max_width, indent_width, j);
        }
    }
    let start = Walk::start();
    lemma_node_extends(tree.root, start);
    lemma_node_extends(other.root, start);
    assert(after_node(tree.root, start).tokens =~= all);
    assert(after_node(other.root, start).tokens =~= moved);
    lemma_node_twins(tree.root, other.root, start, start, s);
    assert(widths_of(moved) =~= widths_of(all));
    assert(texts_of(moved) =~= texts_of(all));
}

/// The tree is what the parser makes of its tokens.
pub open spec fn parsed(tree: ModelicaCST) -> bool {
    derivation(tree.tokens()).found matches Some((children, _)) && tree.root.shape()
        == Shape::Branch(SyntaxKind::StoredDefinition, children)
}

/// Idempotence, as far as it does not rest on the lexer.
///
/// Let `tree` be parsed from a text, and let the tokens `read` be the same
/// tokens on the lines on which the printer puts them: what cutting the
/// formatted text into tokens gives, if it gives back the tokens that were
/// printed. Then `read` is parsed as well, and every tree parsed from it is
/// formatted as the same text again.
pub proof fn lemma_formatting_is_idempotent(
    tree: ModelicaCST,
    again: ModelicaCST,
    max_width: Option<usize>,
    indent_width: usize,
)
    requires
        tree.tokens().len() <= usize::MAX,
        markers_of(tree).len() <= usize::MAX,
        parsed(tree),
        all_alike(tree.tokens(), again.tokens()),
        relaid(tree, again.tokens(), max_width, indent_width),
        derivation(again.tokens()).found is Some ==> parsed(again),
    ensures
        derivation(again.tokens()).found is Some,
        markers_of(again) == markers_of(tree),
        printed(again.tokens(), markers_of(again), max_width, indent_width) == printed(
            tree.tokens(),
            markers_of(tree),
            max_width,
            indent_width,
        ),
{
    lemma_unknown_alike(tree.tokens(), again.tokens(), 0);
    lemma_match_alike(document(), tree.tokens(), again.tokens(), 0, MAX_DEPTH as nat);
    lemma_like_aligned_nodes(tree.root, again.root);
    lemma_layout_is_stable(tree, again, max_width, indent_width);
}

/// The whitespace between any two tokens of a tree is safe: two tokens
/// touch only where they are read as the same two tokens then, and the
/// token behind a line comment starts a new line.
pub proof fn lemma_boundaries_safe(
    tree: ModelicaCST,
    max_width: Option<usize>,
    indent_width: usize,
    t: int,
)
    requires
        tree.tokens().len() <= usize::MAX,
        markers_of(tree).len() <= usize::MAX,
        1 <= t < tree.tokens().len(),
    ensures
        ({
            let tokens = tree.tokens();
            let layout = page_for(tokens, markers_of(tree), max_width, indent_width).layout();
            &&& layout.len() == tokens.len()
            &&& safe(layout[t], tokens[t - 1].kind, tokens[t].kind)
        }),
{
    let tokens = tree.tokens();
    let items = markers_of(tree);
    let page = page_for(tokens, items, max_width, indent_width);
    let done = after_node(tree.root, Walk::start());
    lemma_layout_len(page);
    lemma_node_extends(tree.root, Walk::start());
    assert(done.tokens =~= tokens);
    lemma_markers_well_formed(tree);
    lemma_node_observed(tree.root, Walk::start(), tokens);
    lemma_one_marker_per_boundary(tree);
    if spaced(items, t as nat, items.len()) {
        let j = choose|j: int|
            0 <= j < items.len() && j < items.len() && (#[trigger] items[j]).0 == t as nat
                && spacing(items[j].1);
        let m = items[j].1;
        assert(obeys(items, j, 0, tokens));
        assert(wide(m));
        lemma_marker_stands_alone(tree, j);
        if m == Marker::Break(Break::Soft) {
            lemma_soft_answers(page, t);
        } else {
            lemma_layout_answers(page, t, m);
        }
    } else {
        lemma_unasked_touches(page, t);
        if parts(tokens[t - 1], tokens[t]) {
            assert(spaced_between(items, t, 0, items.len() as int));
            let j = choose|j: int|
                0 <= j < items.len() && 0 <= j < items.len() && (#[trigger] items[j]).0 == t
                    && spacing(items[j].1);
            assert(items[j].0 == t as nat);
            assert(false);
        }
    }
}

/// The printout of a tree that holds the tokens of a text, with `tail`
/// behind the formatted text.
pub open spec fn printout_of(
    source: Seq<char>,
    tree: ModelicaCST,
    max_width: Option<usize>,
    indent_width: usize,
    tail: Seq<char>,
) -> Printout {
    Printout {
        source,
        tokens: tree.tokens(),
        leads: page_for(tree.tokens(), markers_of(tree), max_width, indent_width).layout(),
        indent_width,
        tail,
    }
}

/// The printout of a tree that holds the tokens of a text, all of them
/// tokens of the language, is sound.
pub proof fn lemma_printout_sound(
    source: Seq<char>,
    tree: ModelicaCST,
    max_width: Option<usize>,
    indent_width: usize,
    tail: Seq<char>,
)
    requires
        tree.tokens().len() <= usize::MAX,
        markers_of(tree).len() <= usize::MAX,
        describe_all(tree.tokens(), lexemes(source), source),
        forall|i: int|
            0 <= i < tree.tokens().len() ==> (#[trigger] tree.tokens()[i]).kind
                != SyntaxKind::Unknown,
        terminates(tail),
    ensures
        printout_of(source, tree, max_width, indent_width, tail).sound(),
        printout_of(source, tree, max_width, indent_width, tail).text() == printed(
            tree.tokens(),
            markers_of(tree),
            max_width,
            indent_width,
        ) + tail,
{
    reveal(Printout::sound);
    let tokens = tree.tokens();
    let page = page_for(tokens, markers_of(tree), max_width, indent_width);
    let po = printout_of(source, tree, max_width, indent_width, tail);
    lemma_layout_len(page);
    lemma_lexemes_lossless(source);
    if tokens.len() > 0 {
        lemma_first_lead(page);
    }
    assert forall|t: int| 1 <= t < tokens.len() implies safe(
        #[trigger] po.leads[t],
        tokens[t - 1].kind,
        tokens[t].kind,
    ) by {
        lemma_boundaries_safe(tree, max_width, indent_width, t);
    }
}

/// Token preservation.
///
/// Let `tree` hold the tokens of a text, all of them tokens of the
/// language, as a tree parsed from the text does. Cutting the formatted
/// text into tokens gives the same tokens back: as many, of the same kinds
/// and texts, in the same order. They stand on the lines on which the
/// printer put them. The same holds of the formatted text with a line
/// terminator, or other whitespace that starts with the end of the line,
/// behind it.
pub proof fn lemma_tokens_read_back(
    source: Seq<char>,
    tree: ModelicaCST,
    tail: Seq<char>,
    read: Seq<Token>,
    max_width: Option<usize>,
    indent_width: usize,
)
    requires
        tree.tokens().len() <= usize::MAX,
        markers_of(tree).len() <= usize::MAX,
        describe_all(tree.tokens(), lexemes(source), source),
        forall|i: int|
            0 <= i < tree.tokens().len() ==> (#[trigger] tree.tokens()[i]).kind
                != SyntaxKind::Unknown,
        terminates(tail),
        describe_all(
            read,
            lexemes(printed(tree.tokens(), markers_of(tree), max_width, indent_width) + tail),
            printed(tree.tokens(), markers_of(tree), max_width, indent_width) + tail,
        ),
    ensures
        all_alike(tree.tokens(), read),
        relaid(tree, read, max_width, indent_width),
{
    let po = printout_of(source, tree, max_width, indent_width, tail);
    lemma_printout_sound(source, tree, max_width, indent_width, tail);
    lemma_read_alike(po, read);
}

/// The formatted text of a tree parsed from a text is parsed in turn,
/// with or without a line terminator behind it: whatever tokens it is cut
/// into match the grammar.
pub proof fn lemma_formatted_text_parses(
    source: Seq<char>,
    tree: ModelicaCST,
    tail: Seq<char>,
    read: Seq<Token>,
    max_width: Option<usize>,
    indent_width: usize,
)
    requires
        tree.tokens().len() <= usize::MAX,
        markers_of(tree).len() <= usize::MAX,
        describe_all(tree.tokens(), lexemes(source), source),
        parsed(tree),
        terminates(tail),
        describe_all(
            read,
            lexemes(printed(tree.tokens(), markers_of(tree), max_width, indent_width) + tail),
            printed(tree.tokens(), markers_of(tree), max_width, indent_width) + tail,
        ),
    ensures
        derivation(read).found is Some,
{
    lemma_derivation_known(tree.tokens());
    lemma_tokens_read_back(source, tree, tail, read, max_width, indent_width);
    lemma_unknown_alike(tree.tokens(), read, 0);
    lemma_match_alike(document(), tree.tokens(), read, 0, MAX_DEPTH as nat);
}

/// What is written passes the check.
///
/// Let `tree` be parsed from a text, and let a file hold the formatted
/// text of `tree` with the line terminator `eol` behind it, as it is
/// written. Then the file is parsed, and every tree `again` parsed from it
/// is formatted as the same text: with the line terminator behind it, that
/// is the file, character by character.
pub proof fn lemma_written_file_passes_check(
    source: Seq<char>,
    tree: ModelicaCST,
    again: ModelicaCST,
    eol: Seq<char>,
    max_width: Option<usize>,
    indent_width: usize,
)
    requires
        tree.tokens().len() <= usize::MAX,
        markers_of(tree).len() <= usize::MAX,
        describe_all(tree.tokens(), lexemes(source), source),
        parsed(tree),
        terminates(eol),
        describe_all(
            again.tokens(),
            lexemes(printed(tree.tokens(), markers_of(tree), max_width, indent_width) + eol),
            printed(tree.tokens(), markers_of(tree), max_width, indent_width) + eol,
        ),
        derivation(again.tokens()).found is Some ==> parsed(again),
    ensures
        derivation(again.tokens()).found is Some,
        printed(again.tokens(), markers_of(again), max_width, indent_width) + eol == printed(
            tree.tokens(),
            markers_of(tree),
            max_width,
            indent_width,
        ) + eol,
{
    lemma_derivation_known(tree.tokens());
    lemma_tokens_read_back(source, tree, eol, again.tokens(), max_width, indent_width);
    lemma_formatting_is_idempotent(tree, again, max_width, indent_width);
}

/// Idempotence.
///
/// Let `tree` be parsed from a text, and `again` from the formatted text
/// of `tree`. Then the formatted text is parsed indeed, and `again` is
/// formatted as the same text: formatting a formatted text changes
/// nothing.
pub proof fn lemma_idempotence(
    source: Seq<char>,
    tree: ModelicaCST,
    again: ModelicaCST,
    max_width: Option<usize>,
    indent_width: usize,
)
    requires
        tree.tokens().len() <= usize::MAX,
        markers_of(tree).len() <= usize::MAX,
        describe_all(tree.tokens(), lexemes(source), source),
        parsed(tree),
        describe_all(
            again.tokens(),
            lexemes(printed(tree.tokens(), markers_of(tree), max_width, indent_width)),
            printed(tree.tokens(), markers_of(tree), max_width, indent_width),
        ),
        derivation(again.tokens()).found is Some ==> parsed(again),
    ensures
        derivation(again.tokens()).found is Some,
        printed(again.tokens(), markers_of(again), max_width, indent_width) == printed(
            tree.tokens(),
            markers_of(tree),
            max_width,
            indent_width,
        ),
{
    let out = printed(tree.tokens(), markers_of(tree), max_width, indent_width);
    assert(out + Seq::<char>::empty() =~= out);
    lemma_written_file_passes_check(
        source,
        tree,
        again,
        Seq::empty(),
        max_width,
        indent_width,
    );
}

} // verus!
