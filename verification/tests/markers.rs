use mofmt::printing::print;
use mofmt::{Break, Element, Marker, MarkerStream, ModelicaCST, Shift, SyntaxKind, SyntaxNode, Token};

fn tok(kind: SyntaxKind, text: &str) -> Element {
    Element::Token(Token::new(kind, text.to_string(), 0, 0))
}

fn node(kind: SyntaxKind, children: Vec<Element>) -> Element {
    Element::Node(SyntaxNode::new(kind, children))
}

/// `x = 1 + 2` as an equation
fn equation() -> ModelicaCST {
    ModelicaCST::new(SyntaxNode::new(
        SyntaxKind::Equation,
        vec![
            tok(SyntaxKind::Ident, "x"),
            tok(SyntaxKind::Equal, "="),
            node(
                SyntaxKind::Expression,
                vec![node(
                    SyntaxKind::ArithmeticExpression,
                    vec![
                        tok(SyntaxKind::UnsignedInteger, "1"),
                        node(SyntaxKind::AddOperator, vec![tok(SyntaxKind::Plus, "+")]),
                        tok(SyntaxKind::UnsignedInteger, "2"),
                    ],
                )],
            ),
        ],
    ))
}

fn words(texts: &[&str]) -> ModelicaCST {
    ModelicaCST::new(SyntaxNode::new(
        SyntaxKind::ErrorNode,
        texts.iter().map(|t| tok(SyntaxKind::Ident, t)).collect(),
    ))
}

fn stream(max_width: Option<usize>, indent_width: usize, items: Vec<(usize, Marker)>) -> MarkerStream {
    MarkerStream { max_width, indent_width, items }
}

#[test]
fn markers_of_an_equation() {
    let markers = mofmt::formatting::format(&equation(), Some(20));
    assert_eq!(markers.max_width, Some(20));
    assert_eq!(markers.indent_width, 2);
    assert_eq!(
        markers.items,
        vec![
            (0, Marker::Group(0)),
            (1, Marker::Space(1)),
            (2, Marker::Break(Break::Soft)),
            (2, Marker::IndentDelta(Shift::Push)),
            (2, Marker::Group(4)),
            (2, Marker::Group(5)),
            (3, Marker::Break(Break::Soft)),
            (4, Marker::Space(1)),
            (5, Marker::Group(5)),
            (5, Marker::Group(4)),
            (5, Marker::IndentDelta(Shift::Pop)),
            (5, Marker::Group(0)),
        ]
    );
}

#[test]
fn markers_do_not_depend_on_the_width() {
    let narrow = mofmt::formatting::format(&equation(), Some(1));
    let wide = mofmt::formatting::format(&equation(), None);
    assert_eq!(narrow.items, wide.items);
    assert_eq!(wide.max_width, None);
}

#[test]
fn a_kind_without_a_rule_gets_single_spaces() {
    let tree = words(&["a", "b", "c"]);
    let markers = mofmt::formatting::format(&tree, None);
    assert_eq!(markers.items, vec![(1, Marker::Space(1)), (2, Marker::Space(1))]);
    assert_eq!(tree.pretty_print(), "a b c");
}

#[test]
fn a_group_that_fits_exactly_stays_flat() {
    let tree = equation();
    assert_eq!(tree.pretty_print_with_line_length(9), "x = 1 + 2");
    assert_eq!(tree.pretty_print_with_line_length(8), "x =\n  1 + 2");
    assert_eq!(tree.pretty_print_with_line_length(7), "x =\n  1 + 2");
    assert_eq!(tree.pretty_print_with_line_length(6), "x =\n  1\n  + 2");
}

#[test]
fn without_a_width_no_soft_break_is_taken() {
    assert_eq!(equation().pretty_print(), "x = 1 + 2");
}

#[test]
fn a_token_wider_than_the_line_is_printed_whole() {
    let tree = words(&["averyveryverylongname", "b"]);
    assert_eq!(tree.pretty_print_with_line_length(5), "averyveryverylongname b");
}

#[test]
fn an_empty_tree_prints_nothing() {
    let tree = ModelicaCST::new(SyntaxNode::new(SyntaxKind::StoredDefinition, vec![]));
    assert!(mofmt::formatting::format(&tree, None).items.is_empty());
    assert_eq!(tree.pretty_print(), "");
}

#[test]
fn blank_requests_collapse_to_one_empty_line() {
    let tree = words(&["a", "b"]);
    let out = print(&tree, stream(None, 2, vec![(1, Marker::Break(Break::Blank(3)))]));
    assert_eq!(out, "a\n\nb");
    let out = print(
        &tree,
        stream(None, 2, vec![(1, Marker::Break(Break::Blank(1))), (1, Marker::Break(Break::Blank(2)))]),
    );
    assert_eq!(out, "a\n\nb");
}

#[test]
fn a_blank_request_for_nothing_asks_nothing() {
    let tree = words(&["a", "b"]);
    assert_eq!(print(&tree, stream(None, 2, vec![(1, Marker::Break(Break::Blank(0)))])), "ab");
}

#[test]
fn spaces_are_printed_unless_a_break_is_taken() {
    let tree = words(&["a", "b"]);
    assert_eq!(print(&tree, stream(None, 2, vec![(1, Marker::Space(3))])), "a   b");
    let both = vec![(1, Marker::Space(3)), (1, Marker::Break(Break::Hard))];
    assert_eq!(print(&tree, stream(None, 2, both)), "a\nb");
}

#[test]
fn a_hard_break_is_taken_in_a_flat_group_and_does_not_break_it() {
    let tree = words(&["a", "b", "c"]);
    let items = vec![
        (0, Marker::Group(0)),
        (1, Marker::Break(Break::Soft)),
        (2, Marker::Break(Break::Hard)),
        (3, Marker::Group(0)),
    ];
    assert_eq!(print(&tree, stream(None, 2, items.clone())), "a b\nc");
    assert_eq!(print(&tree, stream(Some(80), 2, items.clone())), "a b\nc");
    assert_eq!(print(&tree, stream(Some(3), 2, items.clone())), "a b\nc");
    // each line of the group has to fit
    assert_eq!(print(&tree, stream(Some(2), 2, items)), "a\nb\nc");
}

#[test]
fn indentation_changes_apply_to_the_line_that_follows() {
    let tree = words(&["a", "b", "c"]);
    let items = vec![
        (1, Marker::Break(Break::Hard)),
        (1, Marker::IndentDelta(Shift::Push)),
        (2, Marker::IndentDelta(Shift::Pop)),
        (2, Marker::Break(Break::Hard)),
    ];
    assert_eq!(print(&tree, stream(None, 4, items)), "a\n    b\nc");
}

#[test]
fn an_inner_group_stays_flat_in_a_broken_group() {
    let tree = words(&["aaaa", "bbbb", "cccc", "dddd"]);
    let items = vec![
        (0, Marker::Group(0)),
        (1, Marker::Break(Break::Soft)),
        (1, Marker::Group(1)),
        (2, Marker::Break(Break::Soft)),
        (3, Marker::Group(1)),
        (3, Marker::Break(Break::Soft)),
        (4, Marker::Group(0)),
    ];
    assert_eq!(print(&tree, stream(Some(10), 2, items)), "aaaa\nbbbb cccc\ndddd");
}

#[test]
fn what_is_glued_behind_a_group_plays_no_part_in_its_fit() {
    let tree = ModelicaCST::new(SyntaxNode::new(
        SyntaxKind::EquationSection,
        vec![
            node(
                SyntaxKind::Equation,
                vec![
                    tok(SyntaxKind::Ident, "aa"),
                    tok(SyntaxKind::Equal, "="),
                    node(SyntaxKind::Expression, vec![tok(SyntaxKind::Ident, "b")]),
                ],
            ),
            tok(SyntaxKind::Semicolon, ";"),
        ],
    ));
    assert_eq!(tree.pretty_print_with_line_length(7), "aa = b;");
    assert_eq!(tree.pretty_print_with_line_length(6), "aa = b;");
    assert_eq!(tree.pretty_print_with_line_length(5), "aa =\n    b;");
    assert_eq!(tree.pretty_print(), "aa = b;");
}

#[test]
fn a_soft_break_outside_of_all_groups_is_never_taken() {
    let tree = words(&["a", "b"]);
    let items = vec![(1, Marker::Break(Break::Soft))];
    assert_eq!(print(&tree, stream(None, 2, items.clone())), "a b");
    assert_eq!(print(&tree, stream(Some(80), 2, items.clone())), "a b");
    assert_eq!(print(&tree, stream(Some(1), 2, items)), "a b");
}

#[test]
fn a_group_is_measured_up_to_the_marker_that_closes_it() {
    let tree = words(&["aaaa", "bbbb", "cc", "dddd"]);
    // a group of two, one more token glued on, then a soft break of the group around
    let items = vec![
        (0, Marker::Group(0)),
        (0, Marker::Group(1)),
        (1, Marker::Break(Break::Soft)),
        (2, Marker::Group(1)),
        (3, Marker::Break(Break::Soft)),
        (4, Marker::Group(0)),
    ];
    assert_eq!(print(&tree, stream(Some(16), 2, items.clone())), "aaaa bbbbcc dddd");
    assert_eq!(print(&tree, stream(Some(15), 2, items.clone())), "aaaa bbbbcc\ndddd");
    assert_eq!(print(&tree, stream(Some(9), 2, items.clone())), "aaaa bbbbcc\ndddd");
    assert_eq!(print(&tree, stream(Some(8), 2, items)), "aaaa\nbbbbcc\ndddd");
}
