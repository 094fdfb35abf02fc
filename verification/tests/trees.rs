use mofmt::{Element, ModelicaCST, SyntaxKind, SyntaxNode, Token};

fn tok(kind: SyntaxKind, text: &str, line: usize) -> Element {
    Element::Token(Token::new(kind, text.to_string(), line, line))
}

fn node(kind: SyntaxKind, children: Vec<Element>) -> Element {
    Element::Node(SyntaxNode::new(kind, children))
}

/// `name`, wrapped as the expression grammar wraps a single operand.
fn operand(kind: SyntaxKind, text: &str, line: usize) -> Element {
    let inner = if kind == SyntaxKind::Ident {
        node(SyntaxKind::ComponentReference, vec![tok(kind, text, line)])
    } else {
        tok(kind, text, line)
    };
    node(
        SyntaxKind::Term,
        vec![node(SyntaxKind::Factor, vec![node(SyntaxKind::Primary, vec![inner])])],
    )
}

fn wrap_arithmetic(children: Vec<Element>) -> Element {
    node(
        SyntaxKind::SimpleExpression,
        vec![node(
            SyntaxKind::LogicalExpression,
            vec![node(
                SyntaxKind::LogicalTerm,
                vec![node(
                    SyntaxKind::LogicalFactor,
                    vec![node(
                        SyntaxKind::Relation,
                        vec![node(SyntaxKind::ArithmeticExpression, children)],
                    )],
                )],
            )],
        )],
    )
}

fn model_a() -> ModelicaCST {
    // model   A
    // equation
    //   x=1+2;
    // end A;
    let equation = node(
        SyntaxKind::Equation,
        vec![
            wrap_arithmetic(vec![operand(SyntaxKind::Ident, "x", 3)]),
            tok(SyntaxKind::Equal, "=", 3),
            node(
                SyntaxKind::Expression,
                vec![wrap_arithmetic(vec![
                    operand(SyntaxKind::UnsignedInteger, "1", 3),
                    node(SyntaxKind::AddOperator, vec![tok(SyntaxKind::Plus, "+", 3)]),
                    operand(SyntaxKind::UnsignedInteger, "2", 3),
                ])],
            ),
        ],
    );
    let section = node(
        SyntaxKind::EquationSection,
        vec![tok(SyntaxKind::EquationKw, "equation", 2), equation, tok(SyntaxKind::Semicolon, ";", 3)],
    );
    let long = node(
        SyntaxKind::LongClassSpecifier,
        vec![
            tok(SyntaxKind::Ident, "A", 1),
            node(SyntaxKind::Composition, vec![node(SyntaxKind::ElementList, vec![]), section]),
            tok(SyntaxKind::EndKw, "end", 4),
            tok(SyntaxKind::Ident, "A", 4),
        ],
    );
    let class = node(
        SyntaxKind::ClassDefinition,
        vec![
            node(SyntaxKind::ClassPrefixes, vec![tok(SyntaxKind::ModelKw, "model", 1)]),
            node(SyntaxKind::ClassSpecifier, vec![long]),
        ],
    );
    ModelicaCST::new(SyntaxNode::new(
        SyntaxKind::StoredDefinition,
        vec![class, tok(SyntaxKind::Semicolon, ";", 4)],
    ))
}

#[test]
fn a_tree_built_by_hand_is_laid_out() {
    let tree = model_a();
    assert_eq!(tree.pretty_print(), "model A\nequation\n  x = 1 + 2;\nend A;");
}
