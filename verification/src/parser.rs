//! The parser: it matches the tokens of a text against the grammar and
//! builds the syntax tree.

use vstd::prelude::*;
use crate::grammar::{production, production_of, Rule};
use crate::syntax::{Element, ModelicaCST, SyntaxKind, SyntaxNode, Token};

verus! {

/// What a tree is made of, as a value of the specification: a token, or a
/// kind with the shapes of the children.
pub enum Shape {
    Leaf(Token),
    Branch(SyntaxKind, Seq<Shape>),
}

impl Element {
    /// The shape of the element.
    pub open spec fn shape(self) -> Shape
        decreases self,
    {
        match self {
            Element::Token(t) => Shape::Leaf(t),
            Element::Node(n) => Shape::Branch(n.kind, n.shapes_upto(n.children@.len())),
        }
    }
}

impl SyntaxNode {
    /// The shapes of the first `k` children.
    pub open spec fn shapes_upto(self, k: nat) -> Seq<Shape>
        decreases self, k,
    {
        if k == 0 || k > self.children@.len() {
            Seq::empty()
        } else {
            self.shapes_upto((k - 1) as nat).push(self.children@[k - 1].shape())
        }
    }

    /// The shape of the node.
    pub open spec fn shape(self) -> Shape {
        Shape::Branch(self.kind, self.shapes_upto(self.children@.len()))
    }
}

/// The shapes of the elements.
pub open spec fn shapes_of(elements: Seq<Element>) -> Seq<Shape> {
    Seq::new(elements.len(), |i: int| elements[i].shape())
}

/// What matching a pattern gives: the shapes made and the position behind
/// them where it matches, and the farthest token at which a token was asked
/// for in vain.
pub struct Parsed {
    pub found: Option<(Seq<Shape>, nat)>,
    pub far: nat,
}

/// The larger of two numbers.
pub open spec fn larger(a: nat, b: nat) -> nat {
    if a >= b {
        a
    } else {
        b
    }
}

/// The position of the first token from `pos` on that is no comment.
pub open spec fn comments_end(tokens: Seq<Token>, pos: nat) -> nat
    decreases tokens.len() - pos,
{
    if pos < tokens.len() && tokens[pos as int].kind.is_comment() {
        comments_end(tokens, pos + 1)
    } else {
        pos
    }
}

/// The tokens from `from` up to `to`, as leaves.
pub open spec fn leaves(tokens: Seq<Token>, from: nat, to: nat) -> Seq<Shape> {
    Seq::new((to - from) as nat, |i: int| Shape::Leaf(tokens[from + i]))
}

/// Matches `rule` against the tokens from `pos` on.
///
/// Comments match no pattern. Those in front of a token that matches
/// become leaves in front of it; those in front of a node stand in front
/// of the node, not in it. A node is made only as long as `fuel`, the
/// depth of nesting that is left, is not used up.
pub open spec fn matching(rule: Rule, tokens: Seq<Token>, pos: nat, fuel: nat) -> Parsed
    decreases fuel, rule, tokens.len() - pos,
{
    if pos > tokens.len() {
        Parsed { found: None, far: pos }
    } else {
        let next = comments_end(tokens, pos);
        match rule {
            Rule::Empty => Parsed { found: Some((Seq::empty(), pos)), far: 0 },
            Rule::End => if next >= tokens.len() {
                Parsed { found: Some((leaves(tokens, pos, next), next)), far: 0 }
            } else {
                Parsed { found: None, far: next }
            },
            Rule::Token(kind) => if next < tokens.len() && tokens[next as int].kind == kind {
                Parsed { found: Some((leaves(tokens, pos, next + 1), next + 1)), far: 0 }
            } else {
                Parsed { found: None, far: next }
            },
            Rule::Node(kind) => if fuel == 0 || next > tokens.len() {
                Parsed { found: None, far: pos }
            } else {
                let inner = matching(production(kind), tokens, next, (fuel - 1) as nat);
                match inner.found {
                    Some((children, end)) => Parsed {
                        found: Some(
                            (leaves(tokens, pos, next).push(Shape::Branch(kind, children)), end),
                        ),
                        far: inner.far,
                    },
                    None => Parsed { found: None, far: inner.far },
                }
            },
            Rule::Then(a, b) => {
                let first = matching(*a, tokens, pos, fuel);
                match first.found {
                    Some((head, mid)) => {
                        let second = matching(*b, tokens, mid, fuel);
                        match second.found {
                            Some((tail, end)) => Parsed {
                                found: Some((head + tail, end)),
                                far: larger(first.far, second.far),
                            },
                            None => Parsed { found: None, far: larger(first.far, second.far) },
                        }
                    },
                    None => first,
                }
            },
            Rule::Or(a, b) => {
                let first = matching(*a, tokens, pos, fuel);
                if first.found is Some {
                    first
                } else {
                    let second = matching(*b, tokens, pos, fuel);
                    Parsed { found: second.found, far: larger(first.far, second.far) }
                }
            },
            Rule::Opt(a) => {
                let first = matching(*a, tokens, pos, fuel);
                if first.found is Some {
                    first
                } else {
                    Parsed { found: Some((Seq::empty(), pos)), far: first.far }
                }
            },
            Rule::Star(a) => {
                let first = matching(*a, tokens, pos, fuel);
                match first.found {
                    Some((head, mid)) if pos < mid <= tokens.len() => {
                        let rest = matching(rule, tokens, mid, fuel);
                        match rest.found {
                            Some((tail, end)) => Parsed {
                                found: Some((head + tail, end)),
                                far: larger(first.far, rest.far),
                            },
                            None => Parsed { found: Some((head, mid)), far: first.far },
                        }
                    },
                    _ => Parsed { found: Some((Seq::empty(), pos)), far: first.far },
                }
            },
        }
    }
}

/// The shapes of all children of a node are the shapes of its elements.
pub proof fn lemma_shapes_upto(n: SyntaxNode, k: nat)
    requires
        k <= n.children@.len(),
    ensures
        n.shapes_upto(k) =~= shapes_of(n.children@.take(k as int)),
    decreases k,
{
    if k > 0 {
        lemma_shapes_upto(n, (k - 1) as nat);
    }
}

/// A match ends within the tokens, behind where it starts, and nothing is
/// asked for behind the last token.
pub proof fn lemma_match_bounds(rule: Rule, tokens: Seq<Token>, pos: nat, fuel: nat)
    requires
        pos <= tokens.len(),
    ensures
        matching(rule, tokens, pos, fuel).far <= tokens.len(),
        matching(rule, tokens, pos, fuel).found matches Some((_, end)) ==> pos <= end
            <= tokens.len(),
    decreases fuel, rule, tokens.len() - pos,
{
    let next = comments_end(tokens, pos);
    lemma_comments_end(tokens, pos);
    match rule {
        Rule::Node(kind) => {
            if fuel > 0 {
                lemma_match_bounds(production(kind), tokens, next, (fuel - 1) as nat);
            }
        },
        Rule::Then(a, b) => {
            lemma_match_bounds(*a, tokens, pos, fuel);
            match matching(*a, tokens, pos, fuel).found {
                Some((_, mid)) => {
                    lemma_match_bounds(*b, tokens, mid, fuel);
                },
                None => {},
            }
        },
        Rule::Or(a, b) => {
            lemma_match_bounds(*a, tokens, pos, fuel);
            lemma_match_bounds(*b, tokens, pos, fuel);
        },
        Rule::Opt(a) => {
            lemma_match_bounds(*a, tokens, pos, fuel);
        },
        Rule::Star(a) => {
            lemma_match_bounds(*a, tokens, pos, fuel);
            match matching(*a, tokens, pos, fuel).found {
                Some((_, mid)) if pos < mid <= tokens.len() => {
                    lemma_match_bounds(rule, tokens, mid, fuel);
                },
                _ => {},
            }
        },
        _ => {},
    }
}

/// The comments in front of a token end within the tokens.
pub proof fn lemma_comments_end(tokens: Seq<Token>, pos: nat)
    requires
        pos <= tokens.len(),
    ensures
        pos <= comments_end(tokens, pos) <= tokens.len(),
    decreases tokens.len() - pos,
{
    if pos < tokens.len() && tokens[pos as int].kind.is_comment() {
        lemma_comments_end(tokens, pos + 1);
    }
}

/// A copy of a token.
fn copy_of(t: &Token) -> (c: Token)
    ensures
        c == *t,
{
    Token { kind: t.kind, text: t.text.clone(), line: t.line, end_line: t.end_line }
}

/// Appends the tokens from `from` up to `to` to `out`.
fn push_tokens(tokens: &Vec<Token>, from: usize, to: usize, out: &mut Vec<Element>)
    requires
        from <= to <= tokens@.len(),
    ensures
        final(out)@.len() == old(out)@.len() + (to - from),
        final(out)@.take(old(out)@.len() as int) == old(out)@,
        shapes_of(final(out)@) == shapes_of(old(out)@) + leaves(tokens@, from as nat, to as nat),
{
    let mut at: usize = from;
    assert(out@.take(out@.len() as int) =~= out@);
    assert(shapes_of(out@) =~= shapes_of(old(out)@) + leaves(tokens@, from as nat, at as nat));
    while at < to
        invariant
            from <= at <= to <= tokens@.len(),
            out@.len() == old(out)@.len() + (at - from),
            out@.take(old(out)@.len() as int) == old(out)@,
            shapes_of(out@) == shapes_of(old(out)@) + leaves(tokens@, from as nat, at as nat),
        decreases to - at,
    {
        let ghost before = out@;
        out.push(Element::Token(copy_of(&tokens[at])));
        at = at + 1;
        assert(out@.take(old(out)@.len() as int) =~= before.take(old(out)@.len() as int));
        assert(shapes_of(out@) =~= shapes_of(before).push(Shape::Leaf(tokens@[at - 1])));
        assert(leaves(tokens@, from as nat, at as nat) =~= leaves(
            tokens@,
            from as nat,
            (at - 1) as nat,
        ).push(Shape::Leaf(tokens@[at - 1])));
        assert(shapes_of(out@) =~= shapes_of(old(out)@) + leaves(
            tokens@,
            from as nat,
            at as nat,
        ));
    }
}

/// Executable form of [`comments_end`].
fn skip_comments(tokens: &Vec<Token>, pos: usize) -> (next: usize)
    requires
        pos <= tokens@.len(),
    ensures
        next == comments_end(tokens@, pos as nat),
        pos <= next <= tokens@.len(),
{
    let mut at: usize = pos;
    while at < tokens.len() && tokens[at].kind.comment()
        invariant
            pos <= at <= tokens@.len(),
            comments_end(tokens@, pos as nat) == comments_end(tokens@, at as nat),
        decreases tokens@.len() - at,
    {
        at = at + 1;
    }
    at
}

/// The outcome `r` of a call and what it did to `out` and `far` are what
/// the match `d` says.
pub open spec fn accords(
    r: Option<usize>,
    out0: Seq<Element>,
    out1: Seq<Element>,
    far0: usize,
    far1: usize,
    d: Parsed,
) -> bool {
    &&& far1 == larger(far0 as nat, d.far)
    &&& match d.found {
        Some((shapes, end)) => {
            &&& r == Some(end as usize)
            &&& end <= usize::MAX
            &&& out0.len() <= out1.len()
            &&& out1.take(out0.len() as int) == out0
            &&& shapes_of(out1) == shapes_of(out0) + shapes
        },
        None => r is None && out1 == out0,
    }
}

fn larger_of(a: usize, b: usize) -> (m: usize)
    ensures
        m == larger(a as nat, b as nat),
{
    if a >= b {
        a
    } else {
        b
    }
}

/// Matches `rule` against the tokens from `pos` on, appending what it makes
/// to `out`. Where the pattern does not match, `out` is left as it was.
fn parse_rule(
    rule: &Rule,
    tokens: &Vec<Token>,
    pos: usize,
    fuel: usize,
    out: &mut Vec<Element>,
    far: &mut usize,
) -> (r: Option<usize>)
    requires
        pos <= tokens@.len(),
    ensures
        accords(
            r,
            old(out)@,
            final(out)@,
            *old(far),
            *final(far),
            matching(*rule, tokens@, pos as nat, fuel as nat),
        ),
    decreases fuel, rule,
{
    let n = tokens.len();
    let start = out.len();
    let ghost d = matching(*rule, tokens@, pos as nat, fuel as nat);
    proof {
        lemma_match_bounds(*rule, tokens@, pos as nat, fuel as nat);
        assert(out@.take(out@.len() as int) =~= out@);
    }
    match rule {
        Rule::Empty => {
            assert(shapes_of(out@) =~= shapes_of(out@) + Seq::<Shape>::empty());
            Some(pos)
        },
        Rule::End => {
            let next = skip_comments(tokens, pos);
            if next >= n {
                push_tokens(tokens, pos, next, out);
                Some(next)
            } else {
                *far = larger_of(*far, next);
                None
            }
        },
        Rule::Token(kind) => {
            let next = skip_comments(tokens, pos);
            if next < n && tokens[next].kind == *kind {
                push_tokens(tokens, pos, next + 1, out);
                Some(next + 1)
            } else {
                *far = larger_of(*far, next);
                None
            }
        },
        Rule::Node(kind) => {
            if fuel == 0 {
                *far = larger_of(*far, pos);
                return None;
            }
            let next = skip_comments(tokens, pos);
            let inner = production_of(*kind);
            let mut children: Vec<Element> = Vec::new();
            match parse_rule(&inner, tokens, next, fuel - 1, &mut children, far) {
                Some(end) => {
                    push_tokens(tokens, pos, next, out);
                    let node = SyntaxNode { kind: *kind, children };
                    proof {
                        lemma_shapes_upto(node, node.children@.len());
                        assert(node.children@.take(node.children@.len() as int)
                            =~= node.children@);
                        assert(shapes_of(Seq::<Element>::empty()) =~= Seq::<Shape>::empty());
                    }
                    let ghost before = out@;
                    out.push(Element::Node(node));
                    assert(out@.take(start as int) =~= before.take(start as int));
                    assert(shapes_of(out@) =~= shapes_of(before).push(Element::Node(node).shape()));
                    Some(end)
                },
                None => None,
            }
        },
        Rule::Then(a, b) => {
            match parse_rule(a, tokens, pos, fuel, out, far) {
                Some(mid) => {
                    proof {
                        lemma_match_bounds(**a, tokens@, pos as nat, fuel as nat);
                    }
                    let ghost first = out@;
                    match parse_rule(b, tokens, mid, fuel, out, far) {
                        Some(end) => {
                            assert(out@.take(start as int) =~= first.take(start as int));
                            let ghost head = matching(**a, tokens@, pos as nat, fuel as nat).found.unwrap().0;
                            let ghost tail = matching(**b, tokens@, mid as nat, fuel as nat).found.unwrap().0;
                            assert(shapes_of(old(out)@) + head + tail =~= shapes_of(old(out)@) + (head
                                + tail));
                            Some(end)
                        },
                        None => {
                            out.truncate(start);
                            assert(out@ =~= old(out)@);
                            None
                        },
                    }
                },
                None => None,
            }
        },
        Rule::Or(a, b) => {
            match parse_rule(a, tokens, pos, fuel, out, far) {
                Some(end) => Some(end),
                None => parse_rule(b, tokens, pos, fuel, out, far),
            }
        },
        Rule::Opt(a) => {
            match parse_rule(a, tokens, pos, fuel, out, far) {
                Some(end) => Some(end),
                None => {
                    assert(shapes_of(out@) =~= shapes_of(out@) + Seq::<Shape>::empty());
                    Some(pos)
                },
            }
        },
        Rule::Star(a) => {
            let mut at: usize = pos;
            let ghost mut made: Seq<Shape> = Seq::empty();
            let ghost far0 = *far;
            assert(shapes_of(out@) =~= shapes_of(old(out)@) + made);
            loop
                invariant
                    n == tokens@.len(),
                    start == old(out)@.len(),
                    pos <= at <= n,
                    start <= out@.len(),
                    out@.take(start as int) == old(out)@,
                    shapes_of(out@) == shapes_of(old(out)@) + made,
                    d == matching(*rule, tokens@, pos as nat, fuel as nat),
                    *rule == Rule::Star(*a),
                    ({
                        let rest = matching(*rule, tokens@, at as nat, fuel as nat);
                        &&& rest.found matches Some((tail, end)) && d.found == Some(
                            (made + tail, end),
                        )
                        &&& larger(*old(far) as nat, d.far) == larger(*far as nat, rest.far)
                    }),
                decreases n - at,
            {
                let ghost rest = matching(*rule, tokens@, at as nat, fuel as nat);
                let ghost first = matching(**a, tokens@, at as nat, fuel as nat);
                let ghost before = out@;
                let mark = out.len();
                proof {
                    lemma_match_bounds(**a, tokens@, at as nat, fuel as nat);
                }
                match parse_rule(a, tokens, at, fuel, out, far) {
                    Some(mid) => {
                        if mid > at {
                            proof {
                                lemma_match_bounds(*rule, tokens@, mid as nat, fuel as nat);
                                let head = first.found.unwrap().0;
                                let next = matching(*rule, tokens@, mid as nat, fuel as nat);
                                assert(next.found is Some) by {
                                    lemma_star_matches(**a, tokens@, mid as nat, fuel as nat);
                                }
                                let tail = next.found.unwrap().0;
                                assert(made + (head + tail) =~= (made + head) + tail);
                                assert(out@.take(start as int) =~= before.take(start as int));
                                made = made + head;
                            }
                            at = mid;
                        } else {
                            out.truncate(mark);
                            assert(out@ =~= before);
                            assert(made + Seq::<Shape>::empty() =~= made);
                            return Some(at);
                        }
                    },
                    None => {
                        assert(made + Seq::<Shape>::empty() =~= made);
                        return Some(at);
                    },
                }
            }
        },
    }
}

/// A repetition always matches.
pub proof fn lemma_star_matches(a: Rule, tokens: Seq<Token>, pos: nat, fuel: nat)
    requires
        pos <= tokens.len(),
    ensures
        matching(Rule::Star(Box::new(a)), tokens, pos, fuel).found is Some,
{
}

/// The tokens of a shape, in order.
pub open spec fn tokens_in(s: Shape) -> Seq<Token>
    decreases s,
{
    match s {
        Shape::Leaf(t) => seq![t],
        Shape::Branch(_, children) => tokens_upto(children, children.len()),
    }
}

/// The tokens of the first `k` of the shapes, in order.
pub open spec fn tokens_upto(shapes: Seq<Shape>, k: nat) -> Seq<Token>
    decreases shapes, k,
{
    if k == 0 || k > shapes.len() {
        Seq::empty()
    } else {
        tokens_upto(shapes, (k - 1) as nat) + tokens_in(shapes[k - 1])
    }
}

/// The tokens of the shapes, in order.
pub open spec fn tokens_of(shapes: Seq<Shape>) -> Seq<Token> {
    tokens_upto(shapes, shapes.len())
}

/// The tokens of the first `k` shapes depend on these shapes only.
pub proof fn lemma_tokens_upto_prefix(a: Seq<Shape>, b: Seq<Shape>, k: nat)
    requires
        k <= a.len() <= b.len(),
        forall|i: int| 0 <= i < k ==> a[i] == b[i],
    ensures
        tokens_upto(a, k) == tokens_upto(b, k),
    decreases k,
{
    if k > 0 {
        lemma_tokens_upto_prefix(a, b, (k - 1) as nat);
    }
}

/// The tokens of shapes with one more shape.
pub proof fn lemma_tokens_of_push(shapes: Seq<Shape>, s: Shape)
    ensures
        tokens_of(shapes.push(s)) == tokens_of(shapes) + tokens_in(s),
{
    lemma_tokens_upto_prefix(shapes, shapes.push(s), shapes.len());
}

/// The tokens of two sequences of shapes, one after the other.
pub proof fn lemma_tokens_of_concat(a: Seq<Shape>, b: Seq<Shape>)
    ensures
        tokens_of(a + b) == tokens_of(a) + tokens_of(b),
    decreases b.len(),
{
    if b.len() == 0 {
        assert(a + b =~= a);
        assert(tokens_of(a) + tokens_of(b) =~= tokens_of(a));
    } else {
        let front = b.drop_last();
        assert(a + b =~= (a + front).push(b.last()));
        assert(b =~= front.push(b.last()));
        lemma_tokens_of_concat(a, front);
        lemma_tokens_of_push(a + front, b.last());
        lemma_tokens_of_push(front, b.last());
        assert((tokens_of(a) + tokens_of(front)) + tokens_in(b.last()) =~= tokens_of(a) + (
        tokens_of(front) + tokens_in(b.last())));
    }
}

/// The tokens of leaves are the tokens they were made of.
pub proof fn lemma_tokens_of_leaves(tokens: Seq<Token>, from: nat, to: nat)
    requires
        from <= to <= tokens.len(),
    ensures
        tokens_of(leaves(tokens, from, to)) == tokens.subrange(from as int, to as int),
    decreases to - from,
{
    if from == to {
        assert(tokens.subrange(from as int, to as int) =~= Seq::<Token>::empty());
    } else {
        lemma_tokens_of_leaves(tokens, from, (to - 1) as nat);
        assert(leaves(tokens, from, to) =~= leaves(tokens, from, (to - 1) as nat).push(
            Shape::Leaf(tokens[to - 1]),
        ));
        lemma_tokens_of_push(leaves(tokens, from, (to - 1) as nat), Shape::Leaf(tokens[to - 1]));
        assert(tokens.subrange(from as int, to as int) =~= tokens.subrange(
            from as int,
            to - 1,
        ) + seq![tokens[to - 1]]);
    }
}

/// Shapes that hold two adjacent stretches of the tokens hold, one after
/// the other, the stretch that the two make.
pub proof fn lemma_join(
    tokens: Seq<Token>,
    pos: nat,
    mid: nat,
    end: nat,
    head: Seq<Shape>,
    tail: Seq<Shape>,
)
    requires
        pos <= mid <= end <= tokens.len(),
        tokens_of(head) == tokens.subrange(pos as int, mid as int),
        tokens_of(tail) == tokens.subrange(mid as int, end as int),
    ensures
        tokens_of(head + tail) == tokens.subrange(pos as int, end as int),
{
    lemma_tokens_of_concat(head, tail);
    assert(tokens.subrange(pos as int, end as int) =~= tokens.subrange(pos as int, mid as int)
        + tokens.subrange(mid as int, end as int));
}

/// The shapes `shapes` hold the tokens from `pos` up to `end`.
pub open spec fn holds(tokens: Seq<Token>, pos: nat, shapes: Seq<Shape>, end: nat) -> bool {
    pos <= end <= tokens.len() && tokens_of(shapes) == tokens.subrange(pos as int, end as int)
}

/// What a match makes holds the tokens from where it starts to where it
/// ends.
pub open spec fn keeps(tokens: Seq<Token>, pos: nat, d: Parsed) -> bool {
    match d.found {
        Some((shapes, end)) => holds(tokens, pos, shapes, end),
        None => true,
    }
}

/// No shapes hold no tokens.
pub proof fn lemma_holds_nothing(tokens: Seq<Token>, pos: nat)
    requires
        pos <= tokens.len(),
    ensures
        holds(tokens, pos, Seq::empty(), pos),
{
    assert(tokens.subrange(pos as int, pos as int) =~= Seq::<Token>::empty());
}

/// Leaves hold the tokens they were made of.
pub proof fn lemma_holds_leaves(tokens: Seq<Token>, pos: nat, end: nat)
    requires
        pos <= end <= tokens.len(),
    ensures
        holds(tokens, pos, leaves(tokens, pos, end), end),
{
    lemma_tokens_of_leaves(tokens, pos, end);
}

/// The comments in front of a node and the node hold their tokens.
pub proof fn lemma_holds_node(
    tokens: Seq<Token>,
    pos: nat,
    next: nat,
    end: nat,
    kind: SyntaxKind,
    children: Seq<Shape>,
)
    requires
        pos <= next,
        holds(tokens, next, children, end),
    ensures
        holds(tokens, pos, leaves(tokens, pos, next).push(Shape::Branch(kind, children)), end),
{
    lemma_tokens_of_leaves(tokens, pos, next);
    lemma_tokens_of_push(leaves(tokens, pos, next), Shape::Branch(kind, children));
    assert(tokens.subrange(pos as int, end as int) =~= tokens.subrange(pos as int, next as int)
        + tokens.subrange(next as int, end as int));
}

/// Shapes that hold two adjacent stretches hold the stretch that the two make.
pub proof fn lemma_holds_join(
    tokens: Seq<Token>,
    pos: nat,
    mid: nat,
    end: nat,
    head: Seq<Shape>,
    tail: Seq<Shape>,
)
    requires
        holds(tokens, pos, head, mid),
        holds(tokens, mid, tail, end),
    ensures
        holds(tokens, pos, head + tail, end),
{
    lemma_join(tokens, pos, mid, end, head, tail);
}

/// A match takes the tokens from where it starts to where it ends into
/// its shapes, each once and in order.
pub proof fn lemma_match_tokens(rule: Rule, tokens: Seq<Token>, pos: nat, fuel: nat)
    requires
        pos <= tokens.len(),
    ensures
        keeps(tokens, pos, matching(rule, tokens, pos, fuel)),
    decreases fuel, rule, tokens.len() - pos,
{
    let next = comments_end(tokens, pos);
    lemma_comments_end(tokens, pos);
    lemma_holds_nothing(tokens, pos);
    match rule {
        Rule::Empty => {},
        Rule::End => {
            lemma_holds_leaves(tokens, pos, next);
        },
        Rule::Token(kind) => {
            if next < tokens.len() {
                lemma_holds_leaves(tokens, pos, next + 1);
            }
        },
        Rule::Node(kind) => {
            if fuel > 0 {
                let inner = matching(production(kind), tokens, next, (fuel - 1) as nat);
                lemma_match_tokens(production(kind), tokens, next, (fuel - 1) as nat);
                match inner.found {
                    Some((children, end)) => {
                        lemma_holds_node(tokens, pos, next, end, kind, children);
                    },
                    None => {},
                }
            }
        },
        Rule::Then(a, b) => {
            lemma_match_tokens(*a, tokens, pos, fuel);
            match matching(*a, tokens, pos, fuel).found {
                Some((head, mid)) => {
                    lemma_match_tokens(*b, tokens, mid, fuel);
                    match matching(*b, tokens, mid, fuel).found {
                        Some((tail, end)) => {
                            lemma_holds_join(tokens, pos, mid, end, head, tail);
                        },
                        None => {},
                    }
                },
                None => {},
            }
        },
        Rule::Or(a, b) => {
            lemma_match_tokens(*a, tokens, pos, fuel);
            lemma_match_tokens(*b, tokens, pos, fuel);
        },
        Rule::Opt(a) => {
            lemma_match_tokens(*a, tokens, pos, fuel);
        },
        Rule::Star(a) => {
            lemma_match_tokens(*a, tokens, pos, fuel);
            match matching(*a, tokens, pos, fuel).found {
                Some((head, mid)) if pos < mid <= tokens.len() => {
                    lemma_match_tokens(rule, tokens, mid, fuel);
                    match matching(rule, tokens, mid, fuel).found {
                        Some((tail, end)) => {
                            lemma_holds_join(tokens, pos, mid, end, head, tail);
                        },
                        None => {},
                    }
                },
                _ => {},
            }
        },
    }
}

/// The tokens below an element are the tokens of its shape.
pub proof fn lemma_element_tokens(e: Element)
    ensures
        e.leaves() == tokens_in(e.shape()),
    decreases e, 0nat,
{
    match e {
        Element::Token(t) => {},
        Element::Node(n) => {
            lemma_node_tokens(n, n.children@.len());
            lemma_shapes_upto(n, n.children@.len());
            assert(n.children@.take(n.children@.len() as int) =~= n.children@);
        },
    }
}

/// The tokens below the first `k` children of a node are the tokens of
/// their shapes.
pub proof fn lemma_node_tokens(n: SyntaxNode, k: nat)
    requires
        k <= n.children@.len(),
    ensures
        n.leaves_upto(k) == tokens_upto(n.shapes_upto(n.children@.len()), k),
    decreases n, k,
{
    lemma_shapes_upto(n, n.children@.len());
    assert(n.children@.take(n.children@.len() as int) =~= n.children@);
    if k > 0 {
        lemma_node_tokens(n, (k - 1) as nat);
        lemma_element_tokens(n.children@[k - 1]);
    }
}

/// The deepest nesting of nodes that the parser follows.
pub const MAX_DEPTH: usize = 1000;

/// The pattern of a whole text: a stored definition, then the end of the
/// text.
pub open spec fn document() -> Rule {
    Rule::Then(Box::new(production(SyntaxKind::StoredDefinition)), Box::new(Rule::End))
}

/// The position of the first token from `pos` on that is no token of the
/// language; the number of tokens where there is none.
pub open spec fn unknown_from(tokens: Seq<Token>, pos: nat) -> nat
    decreases tokens.len() - pos,
{
    if pos < tokens.len() && tokens[pos as int].kind != SyntaxKind::Unknown {
        unknown_from(tokens, pos + 1)
    } else {
        pos
    }
}

/// The match of a whole text. A text that holds what is no token of the
/// language does not match, and fails at the first such place.
pub open spec fn derivation(tokens: Seq<Token>) -> Parsed {
    let bad = unknown_from(tokens, 0);
    if bad < tokens.len() {
        Parsed { found: None, far: bad }
    } else {
        matching(document(), tokens, 0, MAX_DEPTH as nat)
    }
}

/// Where no token from `pos` on is found that is no token of the language,
/// there is none.
pub proof fn lemma_unknown_from(tokens: Seq<Token>, pos: nat)
    requires
        pos <= tokens.len(),
    ensures
        pos <= unknown_from(tokens, pos) <= tokens.len(),
        forall|i: int|
            pos <= i < unknown_from(tokens, pos) ==> (#[trigger] tokens[i]).kind
                != SyntaxKind::Unknown,
        unknown_from(tokens, pos) < tokens.len() ==> tokens[unknown_from(tokens, pos) as int].kind
            == SyntaxKind::Unknown,
    decreases tokens.len() - pos,
{
    if pos < tokens.len() && tokens[pos as int].kind != SyntaxKind::Unknown {
        lemma_unknown_from(tokens, pos + 1);
    }
}

/// A text that matches holds tokens of the language only.
pub proof fn lemma_derivation_known(tokens: Seq<Token>)
    requires
        derivation(tokens).found is Some,
    ensures
        derivation(tokens) == matching(document(), tokens, 0, MAX_DEPTH as nat),
        forall|i: int| 0 <= i < tokens.len() ==> (#[trigger] tokens[i]).kind != SyntaxKind::Unknown,
{
    lemma_unknown_from(tokens, 0);
}

/// Why a text is no Modelica: the place at which the parser could not go
/// on.
#[derive(Debug)]
pub struct SyntaxError {
    /// The position of the farthest token at which a token was asked for
    /// in vain; the number of tokens where the text ends too early.
    pub token: usize,
    /// The line, counted from zero, on which that token starts; the line
    /// on which the text ends where it ends too early.
    pub line: usize,
    /// The text of that token; empty where the text ends too early.
    pub found: String,
}

/// The error `e` names the place `far` in the tokens.
pub open spec fn points_at(e: SyntaxError, tokens: Seq<Token>, far: nat) -> bool {
    &&& e.token == far
    &&& if far < tokens.len() {
        e.line == tokens[far as int].line && e.found == tokens[far as int].text
    } else {
        e.found@.len() == 0 && e.line == if tokens.len() > 0 {
            tokens.last().end_line
        } else {
            0
        }
    }
}

/// The places of the tokens from `pos` on that are no tokens of the
/// language.
pub open spec fn unknown_places(tokens: Seq<Token>, pos: nat) -> Seq<nat>
    decreases tokens.len() - pos,
{
    if pos >= tokens.len() {
        Seq::empty()
    } else if tokens[pos as int].kind == SyntaxKind::Unknown {
        seq![pos] + unknown_places(tokens, pos + 1)
    } else {
        unknown_places(tokens, pos + 1)
    }
}

/// The places that the errors of a text name: every token that is no token
/// of the language; if there is none, the farthest token at which the
/// parser could not go on.
pub open spec fn error_places(tokens: Seq<Token>) -> Seq<nat> {
    if unknown_places(tokens, 0).len() > 0 {
        unknown_places(tokens, 0)
    } else {
        seq![derivation(tokens).far]
    }
}

/// The errors name the places, one by one.
pub open spec fn point_at(errors: Seq<SyntaxError>, tokens: Seq<Token>, places: Seq<nat>) -> bool {
    &&& errors.len() == places.len()
    &&& forall|i: int| 0 <= i < errors.len() ==> points_at(#[trigger] errors[i], tokens, places[i])
}

/// There are places of tokens that are no tokens of the language exactly
/// where a first one is found.
pub proof fn lemma_unknown_places(tokens: Seq<Token>, pos: nat)
    requires
        pos <= tokens.len(),
    ensures
        unknown_places(tokens, pos).len() > 0 <==> unknown_from(tokens, pos) < tokens.len(),
    decreases tokens.len() - pos,
{
    if pos < tokens.len() && tokens[pos as int].kind != SyntaxKind::Unknown {
        lemma_unknown_places(tokens, pos + 1);
    }
}

/// Parses the tokens of a whole text.
///
/// The tokens make a tree exactly where all of them are tokens of the
/// language and they match the grammar to the end of the text, within the
/// deepest nesting. The tree then has the shape of
/// the match and holds every token, comments too, once and in order.
/// Otherwise the errors name every token that is no token of the language,
/// or, if there is none, the farthest token at which the parser could not
/// go on.
pub fn parse(tokens: &Vec<Token>) -> (r: Result<ModelicaCST, Vec<SyntaxError>>)
    ensures
        match r {
            Ok(tree) => {
                &&& derivation(tokens@).found matches Some((children, _)) && tree.root.shape()
                    == Shape::Branch(SyntaxKind::StoredDefinition, children)
                &&& tree.tokens() == tokens@
            },
            Err(errors) => derivation(tokens@).found is None && point_at(
                errors@,
                tokens@,
                error_places(tokens@),
            ),
        },
{
    let n = tokens.len();
    let mut errors: Vec<SyntaxError> = Vec::new();
    let ghost mut places: Seq<nat> = Seq::empty();
    let mut pos: usize = 0;
    assert(unknown_places(tokens@, 0) =~= places + unknown_places(tokens@, 0));
    while pos < n
        invariant
            n == tokens@.len(),
            pos <= n,
            unknown_places(tokens@, 0) == places + unknown_places(tokens@, pos as nat),
            point_at(errors@, tokens@, places),
        decreases n - pos,
    {
        let t = &tokens[pos];
        if t.kind == SyntaxKind::Unknown {
            errors.push(SyntaxError { token: pos, line: t.line, found: t.text.clone() });
            proof {
                assert(places + (seq![pos as nat] + unknown_places(tokens@, (pos + 1) as nat))
                    =~= places.push(pos as nat) + unknown_places(tokens@, (pos + 1) as nat));
                places = places.push(pos as nat);
            }
        }
        pos = pos + 1;
    }
    proof {
        assert(places + unknown_places(tokens@, n as nat) =~= places);
        lemma_unknown_places(tokens@, 0);
    }
    if errors.len() > 0 {
        return Err(errors);
    }
    let rule = Rule::Then(
        Box::new(production_of(SyntaxKind::StoredDefinition)),
        Box::new(Rule::End),
    );
    let mut children: Vec<Element> = Vec::new();
    let mut far: usize = 0;
    let ghost d = derivation(tokens@);
    proof {
        lemma_match_bounds(document(), tokens@, 0, MAX_DEPTH as nat);
        lemma_match_tokens(document(), tokens@, 0, MAX_DEPTH as nat);
        assert(shapes_of(children@) =~= Seq::<Shape>::empty());
    }
    match parse_rule(&rule, tokens, 0, MAX_DEPTH, &mut children, &mut far) {
        Some(end) => {
            let root = SyntaxNode { kind: SyntaxKind::StoredDefinition, children };
            proof {
                let shapes = d.found.unwrap().0;
                assert(shapes_of(root.children@) =~= shapes);
                lemma_shapes_upto(root, root.children@.len());
                assert(root.children@.take(root.children@.len() as int) =~= root.children@);
                lemma_node_tokens(root, root.children@.len());
                lemma_document_ends(tokens@);
                assert(tokens@.subrange(0, tokens@.len() as int) =~= tokens@);
            }
            Ok(ModelicaCST { root })
        },
        None => {
            let e = if far < n {
                let t = &tokens[far];
                SyntaxError { token: far, line: t.line, found: t.text.clone() }
            } else {
                let line = if n > 0 {
                    tokens[n - 1].end_line
                } else {
                    0
                };
                SyntaxError { token: far, line, found: String::new() }
            };
            let mut errors: Vec<SyntaxError> = Vec::new();
            errors.push(e);
            assert(errors@ =~= seq![e]);
            Err(errors)
        },
    }
}

/// A whole text is matched to its end.
pub proof fn lemma_document_ends(tokens: Seq<Token>)
    ensures
        derivation(tokens).found matches Some((_, end)) ==> end == tokens.len(),
{
    lemma_unknown_from(tokens, 0);
    let first = matching(production(SyntaxKind::StoredDefinition), tokens, 0, MAX_DEPTH as nat);
    lemma_match_bounds(production(SyntaxKind::StoredDefinition), tokens, 0, MAX_DEPTH as nat);
    match first.found {
        Some((head, mid)) => {
            lemma_comments_end(tokens, mid);
            let second = matching(Rule::End, tokens, mid, MAX_DEPTH as nat);
            assert(second.found matches Some((_, end)) ==> end == tokens.len());
        },
        None => {},
    }
}

} // verus!
