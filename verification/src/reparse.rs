//! Proof that the parser looks at the kinds of the tokens only: tokens of
//! the same kinds make trees that differ at most in the lines of their
//! tokens.

use vstd::prelude::*;
use crate::grammar::{production, Rule};
use crate::parser::{
    comments_end, leaves, lemma_comments_end, lemma_match_bounds, lemma_shapes_upto, matching,
    Parsed, Shape,
};
use crate::stability::{alike, aligned, aligned_nodes, aligned_upto, all_alike};
use crate::syntax::{Element, SyntaxNode, Token};

verus! {

/// Two shapes that differ at most in the lines of their tokens.
pub open spec fn like(a: Shape, b: Shape) -> bool
    decreases a,
{
    match (a, b) {
        (Shape::Leaf(t), Shape::Leaf(u)) => alike(t, u),
        (Shape::Branch(k, cs), Shape::Branch(l, ds)) => k == l && cs.len() == ds.len()
            && like_upto(cs, ds, cs.len()),
        _ => false,
    }
}

/// The first `k` of the shapes differ at most in the lines of their tokens.
pub open spec fn like_upto(a: Seq<Shape>, b: Seq<Shape>, k: nat) -> bool
    decreases a, k,
{
    if k == 0 {
        true
    } else {
        &&& k <= a.len()
        &&& k <= b.len()
        &&& like_upto(a, b, (k - 1) as nat)
        &&& like(a[k - 1], b[k - 1])
    }
}

/// The shapes differ at most in the lines of their tokens.
pub open spec fn all_like(a: Seq<Shape>, b: Seq<Shape>) -> bool {
    a.len() == b.len() && like_upto(a, b, a.len())
}

/// Each of the first `k` shapes is like its counterpart.
pub proof fn lemma_like_upto_index(a: Seq<Shape>, b: Seq<Shape>, k: nat, i: int)
    requires
        like_upto(a, b, k),
        0 <= i < k,
    ensures
        like(a[i], b[i]),
        k <= a.len(),
        k <= b.len(),
    decreases k,
{
    if i < k - 1 {
        lemma_like_upto_index(a, b, (k - 1) as nat, i);
    }
}

/// Shapes that are like their counterparts one by one are so together.
pub proof fn lemma_like_upto_from(a: Seq<Shape>, b: Seq<Shape>, k: nat)
    requires
        k <= a.len(),
        k <= b.len(),
        forall|i: int| 0 <= i < k ==> like(#[trigger] a[i], b[i]),
    ensures
        like_upto(a, b, k),
    decreases k,
{
    if k > 0 {
        lemma_like_upto_from(a, b, (k - 1) as nat);
    }
}

/// Like sequences of shapes, one after the other, are like sequences.
pub proof fn lemma_all_like_concat(a: Seq<Shape>, b: Seq<Shape>, c: Seq<Shape>, d: Seq<Shape>)
    requires
        all_like(a, b),
        all_like(c, d),
    ensures
        all_like(a + c, b + d),
{
    assert forall|i: int| 0 <= i < (a + c).len() implies like(#[trigger] (a + c)[i], (b + d)[i]) by {
        if i < a.len() {
            lemma_like_upto_index(a, b, a.len(), i);
        } else {
            lemma_like_upto_index(c, d, c.len(), i - a.len());
        }
    }
    lemma_like_upto_from(a + c, b + d, (a + c).len());
}

/// Like sequences of shapes with one more like shape are like sequences.
pub proof fn lemma_all_like_push(a: Seq<Shape>, b: Seq<Shape>, x: Shape, y: Shape)
    requires
        all_like(a, b),
        like(x, y),
    ensures
        all_like(a.push(x), b.push(y)),
{
    assert forall|i: int| 0 <= i < a.len() + 1 implies like(
        #[trigger] a.push(x)[i],
        b.push(y)[i],
    ) by {
        if i < a.len() {
            lemma_like_upto_index(a, b, a.len(), i);
        }
    }
    lemma_like_upto_from(a.push(x), b.push(y), a.len() + 1);
}

/// Like tokens make like leaves.
pub proof fn lemma_all_like_leaves(a: Seq<Token>, b: Seq<Token>, from: nat, to: nat)
    requires
        all_alike(a, b),
        from <= to <= a.len(),
    ensures
        all_like(leaves(a, from, to), leaves(b, from, to)),
{
    assert forall|i: int| 0 <= i < to - from implies like(
        #[trigger] leaves(a, from, to)[i],
        leaves(b, from, to)[i],
    ) by {
        assert(alike(a[from + i], b[from + i]));
    }
    lemma_like_upto_from(leaves(a, from, to), leaves(b, from, to), (to - from) as nat);
}

/// In like tokens the comments end at the same place.
pub proof fn lemma_comments_end_alike(a: Seq<Token>, b: Seq<Token>, pos: nat)
    requires
        all_alike(a, b),
    ensures
        comments_end(a, pos) == comments_end(b, pos),
    decreases a.len() - pos,
{
    if pos < a.len() {
        assert(alike(a[pos as int], b[pos as int]));
        if a[pos as int].kind.is_comment() {
            lemma_comments_end_alike(a, b, pos + 1);
        }
    }
}

/// Two matches end at the same place, in shapes that differ at most in the
/// lines of their tokens, or both fail at the same place.
pub open spec fn same_match(x: Parsed, y: Parsed) -> bool {
    &&& x.far == y.far
    &&& match (x.found, y.found) {
        (Some((s, e)), Some((u, f))) => e == f && all_like(s, u),
        (None, None) => true,
        _ => false,
    }
}

/// The parser looks at the kinds of the tokens only.
pub proof fn lemma_match_alike(rule: Rule, a: Seq<Token>, b: Seq<Token>, pos: nat, fuel: nat)
    requires
        all_alike(a, b),
        pos <= a.len(),
    ensures
        same_match(matching(rule, a, pos, fuel), matching(rule, b, pos, fuel)),
    decreases fuel, rule, a.len() - pos,
{
    let next = comments_end(a, pos);
    lemma_comments_end_alike(a, b, pos);
    lemma_comments_end(a, pos);
    lemma_like_upto_from(Seq::<Shape>::empty(), Seq::<Shape>::empty(), 0);
    match rule {
        Rule::Empty => {},
        Rule::End => {
            lemma_all_like_leaves(a, b, pos, next);
        },
        Rule::Token(kind) => {
            if next < a.len() {
                assert(alike(a[next as int], b[next as int]));
                lemma_all_like_leaves(a, b, pos, next + 1);
            }
        },
        Rule::Node(kind) => {
            if fuel > 0 {
                lemma_match_alike(production(kind), a, b, next, (fuel - 1) as nat);
                let x = matching(production(kind), a, next, (fuel - 1) as nat);
                let y = matching(production(kind), b, next, (fuel - 1) as nat);
                match (x.found, y.found) {
                    (Some((s, e)), Some((u, f))) => {
                        lemma_all_like_leaves(a, b, pos, next);
                        lemma_all_like_push(
                            leaves(a, pos, next),
                            leaves(b, pos, next),
                            Shape::Branch(kind, s),
                            Shape::Branch(kind, u),
                        );
                    },
                    _ => {},
                }
            }
        },
        Rule::Then(p, q) => {
            lemma_match_alike(*p, a, b, pos, fuel);
            lemma_match_bounds(*p, a, pos, fuel);
            let x = matching(*p, a, pos, fuel);
            let y = matching(*p, b, pos, fuel);
            match (x.found, y.found) {
                (Some((s, mid)), Some((u, _))) => {
                    lemma_match_alike(*q, a, b, mid, fuel);
                    let x2 = matching(*q, a, mid, fuel);
                    let y2 = matching(*q, b, mid, fuel);
                    match (x2.found, y2.found) {
                        (Some((s2, _)), Some((u2, _))) => {
                            lemma_all_like_concat(s, u, s2, u2);
                        },
                        _ => {},
                    }
                },
                _ => {},
            }
        },
        Rule::Or(p, q) => {
            lemma_match_alike(*p, a, b, pos, fuel);
            lemma_match_alike(*q, a, b, pos, fuel);
        },
        Rule::Opt(p) => {
            lemma_match_alike(*p, a, b, pos, fuel);
        },
        Rule::Star(p) => {
            lemma_match_alike(*p, a, b, pos, fuel);
            let x = matching(*p, a, pos, fuel);
            let y = matching(*p, b, pos, fuel);
            match (x.found, y.found) {
                (Some((s, mid)), Some((u, _))) => {
                    if pos < mid <= a.len() {
                        lemma_match_alike(rule, a, b, mid, fuel);
                        let x2 = matching(rule, a, mid, fuel);
                        let y2 = matching(rule, b, mid, fuel);
                        match (x2.found, y2.found) {
                            (Some((s2, _)), Some((u2, _))) => {
                                lemma_all_like_concat(s, u, s2, u2);
                            },
                            _ => {},
                        }
                    }
                },
                _ => {},
            }
        },
    }
}

/// In like tokens the first that is no token of the language stands at the
/// same place.
pub proof fn lemma_unknown_alike(a: Seq<Token>, b: Seq<Token>, pos: nat)
    requires
        all_alike(a, b),
    ensures
        crate::parser::unknown_from(a, pos) == crate::parser::unknown_from(b, pos),
    decreases a.len() - pos,
{
    if pos < a.len() {
        assert(alike(a[pos as int], b[pos as int]));
        if a[pos as int].kind != crate::syntax::SyntaxKind::Unknown {
            lemma_unknown_alike(a, b, pos + 1);
        }
    }
}

/// Elements whose shapes differ at most in the lines of their tokens are
/// aligned.
pub proof fn lemma_like_aligned(e: Element, o: Element)
    requires
        like(e.shape(), o.shape()),
    ensures
        aligned(e, o),
    decreases e, 0nat,
{
    match (e, o) {
        (Element::Node(n), Element::Node(m)) => {
            lemma_like_aligned_nodes(n, m);
        },
        _ => {},
    }
}

/// Nodes whose shapes differ at most in the lines of their tokens are
/// aligned.
pub proof fn lemma_like_aligned_nodes(n: SyntaxNode, m: SyntaxNode)
    requires
        like(n.shape(), m.shape()),
    ensures
        aligned_nodes(n, m),
    decreases n, n.children@.len() + 1,
{
    lemma_shapes_upto(n, n.children@.len());
    lemma_shapes_upto(m, m.children@.len());
    assert(n.children@.take(n.children@.len() as int) =~= n.children@);
    assert(m.children@.take(m.children@.len() as int) =~= m.children@);
    lemma_like_aligned_upto(n, m, n.children@.len());
}

/// The first `k` children of nodes of like shapes are aligned.
pub proof fn lemma_like_aligned_upto(n: SyntaxNode, m: SyntaxNode, k: nat)
    requires
        k <= n.children@.len(),
        n.children@.len() == m.children@.len(),
        like_upto(
            n.shapes_upto(n.children@.len()),
            m.shapes_upto(m.children@.len()),
            n.children@.len(),
        ),
        n.shapes_upto(n.children@.len()).len() == n.children@.len(),
        m.shapes_upto(m.children@.len()).len() == m.children@.len(),
        forall|i: int|
            0 <= i < n.children@.len() ==> n.shapes_upto(n.children@.len())[i]
                == (#[trigger] n.children@[i]).shape(),
        forall|i: int|
            0 <= i < m.children@.len() ==> m.shapes_upto(m.children@.len())[i]
                == (#[trigger] m.children@[i]).shape(),
    ensures
        aligned_upto(n, m, k),
    decreases n, k,
{
    if k > 0 {
        lemma_like_aligned_upto(n, m, (k - 1) as nat);
        lemma_like_upto_index(
            n.shapes_upto(n.children@.len()),
            m.shapes_upto(m.children@.len()),
            n.children@.len(),
            k - 1,
        );
        lemma_like_aligned(n.children@[k - 1], m.children@[k - 1]);
    }
}

} // verus!
