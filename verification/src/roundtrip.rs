//! Proof that the printed text is cut into the tokens that were printed:
//! the lexer finds every token again, with its kind and its text, on the
//! line on which the printer put it.

use vstd::prelude::*;
use crate::laws::{lemma_lead_text, line_feeds};
use crate::layout::{lead_text, spaces, woven, Lead};
use crate::lexer::{
    blank_between, char_at, covers, describe_all, ends_line, feeds_between, is_space,
    lemma_feeds_split,
    lexemes, lexemes_from, token_at, Lexeme,
};
use crate::printing::texts_of;
use crate::relex::{halts, lemma_joins_halts, lemma_relex, same_text};
use crate::rules::joins;
use crate::syntax::{SyntaxKind, Token};

verus! {

/// Where the whitespace in front of token `i` starts in the printed text.
pub open spec fn begin(leads: Seq<Lead>, texts: Seq<Seq<char>>, indent_width: usize, i: nat) -> nat {
    woven(leads, texts, indent_width, i).len()
}

/// Where token `i` starts in the printed text.
pub open spec fn at(leads: Seq<Lead>, texts: Seq<Seq<char>>, indent_width: usize, i: nat) -> nat {
    begin(leads, texts, indent_width, i) + lead_text(leads[i as int], indent_width).len()
}

/// Where the parts of the printed text lie in it.
pub proof fn lemma_woven_parts(
    leads: Seq<Lead>,
    texts: Seq<Seq<char>>,
    indent_width: usize,
    n: nat,
    i: nat,
)
    requires
        i < n <= leads.len(),
        n <= texts.len(),
    ensures
        ({
            let out = woven(leads, texts, indent_width, n);
            let sep = lead_text(leads[i as int], indent_width);
            let b = begin(leads, texts, indent_width, i);
            let a = at(leads, texts, indent_width, i);
            &&& begin(leads, texts, indent_width, i + 1) == a + texts[i as int].len()
            &&& begin(leads, texts, indent_width, i + 1) <= out.len()
            &&& begin(leads, texts, indent_width, n) == out.len()
            &&& forall|j: int| 0 <= j < sep.len() ==> out[b + j] == #[trigger] sep[j]
            &&& forall|j: int| 0 <= j < texts[i as int].len() ==> out[a + j] == #[trigger] texts[i as int][j]
        }),
    decreases n,
{
    if i + 1 < n {
        lemma_woven_parts(leads, texts, indent_width, (n - 1) as nat, i);
    }
}

/// The line feeds of a stretch of a text are the line feeds of the stretch
/// taken out of it.
pub proof fn lemma_feeds_of_stretch(chars: Seq<char>, from: nat, to: nat)
    requires
        from <= to <= chars.len(),
    ensures
        feeds_between(chars, from, to) == line_feeds(chars.subrange(from as int, to as int)),
    decreases to - from,
{
    if from < to {
        lemma_feeds_of_stretch(chars, from, (to - 1) as nat);
        assert(chars.subrange(from as int, to as int).drop_last() =~= chars.subrange(
            from as int,
            to - 1,
        ));
    }
}

/// Whitespace in front of a place is passed over; only its line feeds are
/// counted.
pub proof fn lemma_skip_blank(chars: Seq<char>, p: nat, m: nat, line: nat)
    requires
        p + m <= chars.len(),
        blank_between(chars, p, p + m),
    ensures
        lexemes_from(chars, p, line) == lexemes_from(
            chars,
            p + m,
            line + feeds_between(chars, p, p + m),
        ),
    decreases m,
{
    if m > 0 {
        assert(is_space(chars[p as int]));
        let next = if chars[p as int] == '\n' {
            line + 1
        } else {
            line
        };
        lemma_skip_blank(chars, p + 1, (m - 1) as nat, next);
        lemma_feeds_split(chars, p, p + 1, p + m);
        assert(feeds_between(chars, p, p + 1) == next - line) by {
            assert(feeds_between(chars, p, p) == 0);
        }
    } else {
        assert(feeds_between(chars, p, p) == 0);
    }
}

/// What the cover of a text says of its stretch `i`.
pub proof fn lemma_covers_index(chars: Seq<char>, ls: Seq<Lexeme>, pos: nat, line: nat, i: int)
    requires
        covers(chars, ls, pos, line),
        0 <= i < ls.len(),
    ensures
        ls[i].start < ls[i].end <= chars.len(),
        !is_space(chars[ls[i].start as int]),
        token_at(chars, ls[i].start) == (ls[i].kind, ls[i].end),
    decreases ls.len(),
{
    if i > 0 {
        lemma_covers_index(chars, ls.drop_first(), ls[0].end, ls[0].end_line, i - 1);
    }
}

/// Whether the whitespace `lead` may stand between a token of kind `left`
/// and a token of kind `right`: two tokens touch only where they are read
/// as the same two tokens then, and a line comment is followed by a new
/// line.
pub open spec fn safe(lead: Lead, left: SyntaxKind, right: SyntaxKind) -> bool {
    match lead {
        Lead::Inline(k) => if k == 0 {
            joins(left, right)
        } else {
            left != SyntaxKind::LineComment
        },
        Lead::Line { .. } => true,
    }
}

/// A text that was printed: the source that the tokens were cut from, the
/// tokens, the whitespace in front of each, and what stands behind the last
/// token.
pub struct Printout {
    pub source: Seq<char>,
    pub tokens: Seq<Token>,
    pub leads: Seq<Lead>,
    pub indent_width: usize,
    pub tail: Seq<char>,
}

/// What may stand behind a printed text: nothing but whitespace, and none
/// that does not start with the end of the line.
pub open spec fn terminates(tail: Seq<char>) -> bool {
    &&& forall|k: int| 0 <= k < tail.len() ==> is_space(#[trigger] tail[k])
    &&& tail.len() > 0 ==> ends_line(tail[0])
}

impl Printout {
    /// The printed text.
    pub open spec fn text(self) -> Seq<char> {
        woven(self.leads, texts_of(self.tokens), self.indent_width, self.tokens.len()) + self.tail
    }

    /// Where the whitespace in front of token `i` starts in the text.
    pub open spec fn begin(self, i: nat) -> nat {
        begin(self.leads, texts_of(self.tokens), self.indent_width, i)
    }

    /// Where token `i` starts in the text.
    pub open spec fn at(self, i: nat) -> nat {
        at(self.leads, texts_of(self.tokens), self.indent_width, i)
    }

    /// The tokens are the tokens of the source, all of them tokens of the
    /// language; nothing stands in front of the first; and the whitespace
    /// between any two of them is safe.
    #[verifier::opaque]
    pub open spec fn sound(self) -> bool {
        &&& covers(self.source, lexemes(self.source), 0, 0)
        &&& describe_all(self.tokens, lexemes(self.source), self.source)
        &&& self.leads.len() == self.tokens.len()
        &&& terminates(self.tail)
        &&& forall|i: int|
            0 <= i < self.tokens.len() ==> (#[trigger] self.tokens[i]).kind != SyntaxKind::Unknown
        &&& self.tokens.len() > 0 ==> self.leads[0] == Lead::Inline(0)
        &&& forall|t: int|
            1 <= t < self.tokens.len() ==> safe(
                #[trigger] self.leads[t],
                self.tokens[t - 1].kind,
                self.tokens[t].kind,
            )
    }

    /// The stretches that the tokens from `i` on are in the text, where
    /// `line` is the line on which the whitespace in front of token `i`
    /// starts.
    pub open spec fn relexed(self, i: nat, line: nat) -> Seq<Lexeme>
        decreases self.tokens.len() - i,
    {
        if i >= self.tokens.len() {
            Seq::empty()
        } else {
            let first = line + line_feeds(lead_text(self.leads[i as int], self.indent_width));
            let last = first + line_feeds(self.tokens[i as int].text@);
            seq![
                Lexeme {
                    kind: self.tokens[i as int].kind,
                    start: self.at(i),
                    end: self.begin(i + 1),
                    line: first,
                    end_line: last,
                },
            ] + self.relexed(i + 1, last)
        }
    }
}

/// What is known of token `i` of a printout: where it lies in the source
/// and in the text.
pub proof fn lemma_token_facts(po: Printout, i: nat)
    requires
        po.sound(),
        i < po.tokens.len(),
    ensures
        ({
            let l = lexemes(po.source)[i as int];
            let len = (l.end - l.start) as nat;
            &&& l.start < l.end <= po.source.len()
            &&& !is_space(po.source[l.start as int])
            &&& token_at(po.source, l.start) == (po.tokens[i as int].kind, l.end)
            &&& po.tokens[i as int].text@.len() == len
            &&& same_text(po.source, l.start, po.text(), po.at(i), len)
            &&& po.begin(i + 1) == po.at(i) + len
            &&& po.begin(i + 1) + po.tail.len() <= po.text().len()
            &&& po.begin(po.tokens.len()) + po.tail.len() == po.text().len()
            &&& po.text()[po.at(i) as int] == po.source[l.start as int]
        }),
{
    reveal(Printout::sound);
    let ls = lexemes(po.source);
    let l = ls[i as int];
    let texts = texts_of(po.tokens);
    lemma_covers_index(po.source, ls, 0, 0, i as int);
    lemma_woven_parts(po.leads, texts, po.indent_width, po.tokens.len(), i);
    assert(describe_all(po.tokens, ls, po.source));
    assert(texts[i as int] == po.source.subrange(l.start as int, l.end as int));
    let len = (l.end - l.start) as nat;
    assert forall|j: int| 0 <= j < len implies po.source[l.start + j] == #[trigger] po.text()[po.at(
        i,
    ) + j] by {
        assert(po.text()[po.at(i) + j] == texts[i as int][j]);
    }
    assert(po.text()[po.at(i) + 0int] == texts[i as int][0]);
}

/// What the whitespace in front of token `i` looks like in the text.
pub proof fn lemma_gap_facts(po: Printout, i: nat)
    requires
        po.sound(),
        i < po.tokens.len(),
    ensures
        ({
            let sep = lead_text(po.leads[i as int], po.indent_width);
            &&& po.at(i) == po.begin(i) + sep.len()
            &&& po.at(i) <= po.text().len()
            &&& blank_between(po.text(), po.begin(i), po.at(i))
            &&& feeds_between(po.text(), po.begin(i), po.at(i)) == line_feeds(sep)
            &&& sep.len() > 0 ==> po.text()[po.begin(i) as int] == sep[0]
            &&& sep.len() > 0 ==> sep[0] == match po.leads[i as int] {
                Lead::Inline(_) => ' ',
                Lead::Line { .. } => '\n',
            }
            &&& sep.len() == 0 ==> po.leads[i as int] == Lead::Inline(0)
        }),
{
    reveal(Printout::sound);
    let texts = texts_of(po.tokens);
    let sep = lead_text(po.leads[i as int], po.indent_width);
    let out = po.text();
    lemma_woven_parts(po.leads, texts, po.indent_width, po.tokens.len(), i);
    lemma_lead_text(po.leads[i as int], po.indent_width);
    assert forall|j: int| po.begin(i) <= j < po.at(i) implies is_space(#[trigger] out[j]) by {
        assert(out[po.begin(i) + (j - po.begin(i))] == sep[j - po.begin(i)]);
    }
    lemma_feeds_of_stretch(out, po.begin(i), po.at(i));
    assert(out.subrange(po.begin(i) as int, po.at(i) as int) =~= sep) by {
        assert forall|j: int| 0 <= j < sep.len() implies out.subrange(
            po.begin(i) as int,
            po.at(i) as int,
        )[j] == #[trigger] sep[j] by {
            assert(out[po.begin(i) + j] == sep[j]);
        }
    }
    if sep.len() > 0 {
        assert(out[po.begin(i) + 0int] == sep[0]);
    }
}

/// What follows token `i` in the text does not run into it.
pub proof fn lemma_follow_halts(po: Printout, i: nat)
    requires
        po.sound(),
        i < po.tokens.len(),
    ensures
        halts(
            po.tokens[i as int].kind,
            char_at(po.text(), po.begin(i + 1)),
            po.begin(i + 1) == po.text().len(),
        ),
{
    reveal(Printout::sound);
    let kind = po.tokens[i as int].kind;
    let out = po.text();
    lemma_token_facts(po, i);
    assert(kind != SyntaxKind::Unknown);
    if i + 1 == po.tokens.len() && po.tail.len() > 0 {
        assert(out[po.begin(i + 1) as int] == po.tail[0]);
        assert(is_space(po.tail[0]));
    }
    if i + 1 < po.tokens.len() {
        lemma_gap_facts(po, i + 1);
        lemma_token_facts(po, i + 1);
        let t = i as int + 1;
        let sep = lead_text(po.leads[t], po.indent_width);
        let next = lexemes(po.source)[t];
        assert(safe(po.leads[t], po.tokens[t - 1].kind, po.tokens[t].kind));
        if sep.len() == 0 {
            lemma_joins_halts(kind, po.source, next.start);
        }
    }
}

/// Token `i` is read in the text as it was read in the source.
pub proof fn lemma_token_again(po: Printout, i: nat)
    requires
        po.sound(),
        i < po.tokens.len(),
    ensures
        po.at(i) < po.begin(i + 1) <= po.text().len(),
        !is_space(po.text()[po.at(i) as int]),
        token_at(po.text(), po.at(i)) == (po.tokens[i as int].kind, po.begin(i + 1)),
        feeds_between(po.text(), po.at(i), po.begin(i + 1)) == line_feeds(
            po.tokens[i as int].text@,
        ),
{
    let l = lexemes(po.source)[i as int];
    let out = po.text();
    lemma_token_facts(po, i);
    lemma_follow_halts(po, i);
    lemma_relex(po.source, l.start, out, po.at(i), (l.end - l.start) as nat);
    lemma_feeds_of_stretch(out, po.at(i), po.begin(i + 1));
    let texts = texts_of(po.tokens);
    lemma_woven_parts(po.leads, texts, po.indent_width, po.tokens.len(), i);
    assert(out.subrange(po.at(i) as int, po.begin(i + 1) as int) =~= texts[i as int]) by {
        assert forall|j: int| 0 <= j < texts[i as int].len() implies out.subrange(
            po.at(i) as int,
            po.begin(i + 1) as int,
        )[j] == #[trigger] texts[i as int][j] by {
            assert(out[po.at(i) + j] == texts[i as int][j]);
        }
    }
}

/// The printed text is cut into the tokens that were printed.
pub proof fn lemma_relexed(po: Printout, i: nat, line: nat)
    requires
        po.sound(),
        i <= po.tokens.len(),
    ensures
        lexemes_from(po.text(), po.begin(i), line) == po.relexed(i, line),
    decreases po.tokens.len() - i,
{
    let out = po.text();
    if i < po.tokens.len() {
        let sep = lead_text(po.leads[i as int], po.indent_width);
        lemma_gap_facts(po, i);
        lemma_token_again(po, i);
        lemma_skip_blank(out, po.begin(i), sep.len(), line);
        let first = line + line_feeds(sep);
        let last = first + line_feeds(po.tokens[i as int].text@);
        lemma_relexed(po, i + 1, last);
    } else {
        reveal(Printout::sound);
        if po.tokens.len() > 0 {
            lemma_token_facts(po, (po.tokens.len() - 1) as nat);
        }
        assert(po.begin(i) + po.tail.len() == out.len());
        assert forall|k: int| po.begin(i) <= k < out.len() implies is_space(#[trigger] out[k]) by {
            assert(out[k] == po.tail[k - po.begin(i)]);
        }
        lemma_skip_blank(out, po.begin(i), po.tail.len(), line);
    }
}

/// The stretches that the tokens are in the text, one by one: there is one
/// for each token, of its kind, where the token stands, and it starts as
/// many lines behind the end of the stretch before it as the whitespace
/// between them holds line feeds.
pub proof fn lemma_relexed_index(po: Printout, i: nat, line: nat, j: int)
    requires
        i <= po.tokens.len(),
        0 <= j < po.tokens.len() - i,
    ensures
        po.relexed(i, line).len() == po.tokens.len() - i,
        po.relexed(i, line)[j].kind == po.tokens[i + j].kind,
        po.relexed(i, line)[j].start == po.at((i + j) as nat),
        po.relexed(i, line)[j].end == po.begin((i + j + 1) as nat),
        po.relexed(i, line)[j].line == (if j == 0 {
            line
        } else {
            po.relexed(i, line)[j - 1].end_line
        }) + line_feeds(lead_text(po.leads[i + j], po.indent_width)),
    decreases po.tokens.len() - i,
{
    lemma_relexed_len(po, i, line);
    if j > 0 {
        let first = line + line_feeds(lead_text(po.leads[i as int], po.indent_width));
        let last = first + line_feeds(po.tokens[i as int].text@);
        lemma_relexed_index(po, i + 1, last, j - 1);
        lemma_relexed_len(po, i + 1, last);
        if j > 1 {
            lemma_relexed_index(po, i + 1, last, j - 2);
        }
    }
}

/// There is one stretch for each token.
pub proof fn lemma_relexed_len(po: Printout, i: nat, line: nat)
    requires
        i <= po.tokens.len(),
    ensures
        po.relexed(i, line).len() == po.tokens.len() - i,
    decreases po.tokens.len() - i,
{
    if i < po.tokens.len() {
        let first = line + line_feeds(lead_text(po.leads[i as int], po.indent_width));
        let last = first + line_feeds(po.tokens[i as int].text@);
        lemma_relexed_len(po, i + 1, last);
    }
}

/// The text of token `i` stands in the printed text where the token was
/// put.
pub proof fn lemma_token_text(po: Printout, i: nat)
    requires
        po.leads.len() == po.tokens.len(),
        i < po.tokens.len(),
    ensures
        po.at(i) <= po.begin(i + 1) <= po.text().len(),
        po.text().subrange(po.at(i) as int, po.begin(i + 1) as int) == po.tokens[i as int].text@,
{
    let texts = texts_of(po.tokens);
    let out = po.text();
    lemma_woven_parts(po.leads, texts, po.indent_width, po.tokens.len(), i);
    assert(out.subrange(po.at(i) as int, po.begin(i + 1) as int) =~= texts[i as int]) by {
        assert forall|j: int| 0 <= j < texts[i as int].len() implies out.subrange(
            po.at(i) as int,
            po.begin(i + 1) as int,
        )[j] == #[trigger] texts[i as int][j] by {
            assert(out[po.at(i) + j] == texts[i as int][j]);
        }
    }
}

/// The line feeds of the whitespace in front of a token: none on the same
/// line, one for a new line, two where an empty line stands in front of it.
pub proof fn lemma_lead_feeds(lead: Lead, indent_width: usize)
    ensures
        line_feeds(lead_text(lead, indent_width)) == match lead {
            Lead::Inline(_) => 0nat,
            Lead::Line { blank, .. } => if blank {
                2nat
            } else {
                1nat
            },
        },
{
    match lead {
        Lead::Inline(k) => {
            crate::laws::lemma_spaces_no_line_feed(k as nat);
        },
        Lead::Line { blank, indent } => {
            let n = indent as nat * indent_width as nat;
            let head = if blank {
                seq!['\n', '\n']
            } else {
                seq!['\n']
            };
            crate::laws::lemma_spaces_no_line_feed(n);
            crate::laws::lemma_line_feeds_concat(head, spaces(n));
            reveal_with_fuel(line_feeds, 3);
            if blank {
                assert(head.drop_last() =~= seq!['\n']);
                assert(head.drop_last().drop_last() =~= Seq::<char>::empty());
            } else {
                assert(head.drop_last() =~= Seq::<char>::empty());
            }
        },
    }
}

/// A sound printout has whitespace for each token.
pub proof fn lemma_sound_len(po: Printout)
    requires
        po.sound(),
    ensures
        po.leads.len() == po.tokens.len(),
{
    reveal(Printout::sound);
}

/// How many lines token `t` starts behind the end of the token before it.
pub open spec fn lines_between(read: Seq<Token>, t: int) -> int {
    read[t].line - read[t - 1].end_line
}

/// Tokens of which each starts as many lines behind the end of the one
/// before it as the whitespace between them holds line feeds stand as the
/// whitespace says.
pub proof fn lemma_read_lines(leads: Seq<Lead>, indent_width: usize, read: Seq<Token>)
    requires
        leads.len() == read.len(),
        forall|t: int|
            1 <= t < read.len() ==> #[trigger] lines_between(read, t) == line_feeds(
                lead_text(leads[t], indent_width),
            ),
    ensures
        forall|t: int|
            1 <= t < read.len() ==> #[trigger] crate::laws::reflects_at(leads, read, t),
{
    assert forall|t: int| 1 <= t < read.len() implies #[trigger] crate::laws::reflects_at(
        leads,
        read,
        t,
    ) by {
        lemma_lead_feeds(leads[t], indent_width);
        assert(lines_between(read, t) == line_feeds(lead_text(leads[t], indent_width)));
    }
}

/// Tokens that describe the stretches in which the printed tokens lie in
/// the text are the same tokens, on the lines that the whitespace between
/// them says.
pub proof fn lemma_described(po: Printout, ls: Seq<Lexeme>, read: Seq<Token>)
    requires
        po.leads.len() == po.tokens.len(),
        ls == po.relexed(0, 0),
        describe_all(read, ls, po.text()),
    ensures
        read.len() == po.tokens.len(),
        forall|i: int|
            0 <= i < read.len() ==> (#[trigger] read[i]).kind == po.tokens[i].kind && read[i].text@
                == po.tokens[i].text@,
        forall|t: int|
            1 <= t < read.len() ==> #[trigger] lines_between(read, t) == line_feeds(
                lead_text(po.leads[t], po.indent_width),
            ),
{
    lemma_relexed_len(po, 0, 0);
    assert forall|i: int| 0 <= i < read.len() implies (#[trigger] read[i]).kind
        == po.tokens[i].kind && read[i].text@ == po.tokens[i].text@ by {
        lemma_relexed_index(po, 0, 0, i);
        lemma_token_text(po, i as nat);
    }
    assert forall|t: int| 1 <= t < read.len() implies #[trigger] lines_between(read, t)
        == line_feeds(lead_text(po.leads[t], po.indent_width)) by {
        lemma_relexed_index(po, 0, 0, t);
        assert(read[t - 1].end_line == ls[t - 1].end_line);
    }
}

/// The printed text of a sound printout is cut into the tokens that were
/// printed: tokens that describe its stretches are the same tokens, and
/// stand on the lines that the whitespace between them says.
pub proof fn lemma_read_back(po: Printout, read: Seq<Token>)
    requires
        po.sound(),
        describe_all(read, lexemes(po.text()), po.text()),
    ensures
        read.len() == po.tokens.len(),
        forall|i: int|
            0 <= i < read.len() ==> (#[trigger] read[i]).kind == po.tokens[i].kind && read[i].text@
                == po.tokens[i].text@,
        forall|t: int|
            1 <= t < read.len() ==> #[trigger] lines_between(read, t) == line_feeds(
                lead_text(po.leads[t], po.indent_width),
            ),
{
    reveal(lexemes);
    lemma_sound_len(po);
    lemma_relexed(po, 0, 0);
    assert(po.begin(0) == 0);
    lemma_described(po, lexemes(po.text()), read);
}

/// Tokens with the kinds and texts of the tokens printed differ from them
/// at most in their lines.
pub proof fn lemma_alike(tokens: Seq<Token>, read: Seq<Token>)
    requires
        read.len() == tokens.len(),
        forall|i: int|
            0 <= i < read.len() ==> (#[trigger] read[i]).kind == tokens[i].kind && read[i].text@
                == tokens[i].text@,
    ensures
        crate::stability::all_alike(tokens, read),
{
}

/// Tokens that describe the stretches of the printed text of a sound
/// printout are the tokens that were printed, and stand as the whitespace
/// between them says.
pub proof fn lemma_read_alike(po: Printout, read: Seq<Token>)
    requires
        po.sound(),
        describe_all(read, lexemes(po.text()), po.text()),
    ensures
        crate::stability::all_alike(po.tokens, read),
        forall|t: int|
            1 <= t < po.tokens.len() ==> #[trigger] crate::laws::reflects_at(po.leads, read, t),
{
    lemma_read_back(po, read);
    lemma_sound_len(po);
    lemma_alike(po.tokens, read);
    lemma_read_lines(po.leads, po.indent_width, read);
}

} // verus!
