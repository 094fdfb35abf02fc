use mofmt::lexer::tokenize;
use mofmt::parse_source;
use mofmt::{Element, SyntaxKind, SyntaxNode};

const LIBRARY: &str = r#"within Modelica.Electrical;
encapsulated package Examples "A package"
  import SI = Modelica.Units.SI;
  import Modelica.Math.{sin, cos};
  import Modelica.Constants.*;
  type Voltage = Real(final quantity="ElectricPotential", final unit="V") "voltage";
  type Color = enumeration(red "Red", green, blue);
  type Any = enumeration(:);
  connector Pin = input Real;
  partial function base = der(f, x, y);
  operator record Complex
    Real re;
    encapsulated operator function '+' input Complex a; input Complex b; output Complex c; algorithm c.re := a.re + b.re; end '+';
  end Complex;
  replaceable model M = Resistor(R=1) constrainedby Base(final x=2) "choice" annotation(choicesAllMatching=true);
  model Circuit
    extends Base(redeclare replaceable package Medium = Air, break x, each final y=3);
    inner outer parameter SI.Resistance R[2,3](each start=1.0, fixed=true) = fill(1, 2, 3) if useR "res" annotation(Dialog(group="G"));
    flow discrete Real q, r(start=0), s;
    Real m[2,2] = [1, 2; 3, 4];
    Real v[:] = {i^2 for i in 1:10};
    parameter String name = "a" + "b" + String(1.5e-3);
  public
    Modelica.Blocks.Interfaces.RealInput u annotation(Placement(transformation(extent={{-140,-20},{-100,20}})));
  protected
    Real z = if a then b elseif c then d else e;
  initial equation
    x = 0;
  equation
    connect(p.i, n.i);
    when {initial(), sample(0, 1)} then x = pre(x) + 1; elsewhen x > 10 then reinit(x, 0); end when;
    for i in 1:n, j in 1:m loop a[i, j] = b[j, i] .* 2 - c[end, 1:end-1]; end for;
    assert(x >= 0 and not y or z <> 1, "msg");
    (a, , b) = f(x, function g(k=1), n=2);
    der(x) = -x;
  algorithm
    while x < 10 loop x := x + 1; if x == 5 then break; end if; end while;
    (y, z) := g(x);
    return;
  initial algorithm
    x := 1;
  external "C" y = foo(x, size(x, 1)) annotation(Library="foo");
    annotation(Icon(graphics={Line(points={{0,0},{1,1}})}), Documentation(info="<html>x</html>"));
  end Circuit;
  annotation(version="1.0");
end Examples;
"#;

fn texts(source: &str) -> Vec<String> {
    tokenize(source).iter().map(|t| t.text.clone()).collect()
}

#[test]
fn a_text_with_most_of_the_grammar_is_parsed() {
    let tree = parse_source(LIBRARY).unwrap();
    let mut leaves = Vec::new();
    tree.root.collect_tokens(&mut leaves);
    assert_eq!(leaves.len(), tokenize(LIBRARY).len());
}

#[test]
fn a_text_with_most_of_the_grammar_keeps_its_tokens() {
    let tree = parse_source(LIBRARY).unwrap();
    for width in [Some(100), Some(60), Some(20), Some(1)] {
        let out = tree.pretty_print_with_line_length(width.unwrap());
        assert_eq!(texts(&out), texts(LIBRARY));
    }
    assert_eq!(texts(&tree.pretty_print()), texts(LIBRARY));
}

#[test]
fn a_text_with_most_of_the_grammar_is_formatted_once_and_for_all() {
    let tree = parse_source(LIBRARY).unwrap();
    for width in [100, 60, 20, 1] {
        let once = tree.pretty_print_with_line_length(width);
        let again = parse_source(&once).unwrap().pretty_print_with_line_length(width);
        assert_eq!(once, again, "width {}", width);
    }
    let once = tree.pretty_print();
    assert_eq!(parse_source(&once).unwrap().pretty_print(), once);
}

#[test]
fn blocks_are_indented() {
    let tree = parse_source(LIBRARY).unwrap();
    let out = tree.pretty_print();
    assert!(out.contains("\n    when {initial(), sample(0, 1)} then\n      x = pre(x) + 1;\n    elsewhen x > 10 then\n      reinit(x, 0);\n    end when;\n"));
    assert!(out.contains("\n    for i in 1:n, j in 1:m loop\n      a[i, j] = b[j, i] .* 2 - c[end, 1:end - 1];\n    end for;\n"));
    assert!(out.contains("\n  type Color = enumeration(red \"Red\", green, blue);\n"));
    assert!(out.contains("\n  import Modelica.Math.{sin, cos};\n  import Modelica.Constants.*;\n"));
}

fn kinds_of(node: &SyntaxNode) -> Vec<SyntaxKind> {
    node.children
        .iter()
        .map(|c| match c {
            Element::Token(t) => t.kind,
            Element::Node(n) => n.kind,
        })
        .collect()
}

fn node_at(node: &SyntaxNode, i: usize) -> &SyntaxNode {
    match &node.children[i] {
        Element::Node(n) => n,
        Element::Token(t) => panic!("token {:?}", t),
    }
}

#[test]
fn the_definition_of_a_class_is_keywords_and_the_class() {
    let tree = parse_source("encapsulated partial model A Real x; end A;").unwrap();
    assert_eq!(tree.root.kind, SyntaxKind::StoredDefinition);
    let definition = node_at(&tree.root, 0);
    assert_eq!(definition.kind, SyntaxKind::ClassDefinition);
    assert_eq!(
        kinds_of(definition),
        vec![SyntaxKind::EncapsulatedKw, SyntaxKind::ClassPrefixes, SyntaxKind::ClassSpecifier]
    );
    assert_eq!(
        kinds_of(node_at(definition, 1)),
        vec![SyntaxKind::PartialKw, SyntaxKind::ModelKw]
    );
    let specifier = node_at(definition, 2);
    assert_eq!(kinds_of(specifier), vec![SyntaxKind::LongClassSpecifier]);
    let class = node_at(specifier, 0);
    let kinds = kinds_of(class);
    assert_eq!(kinds[0], SyntaxKind::Ident);
    assert_eq!(kinds[kinds.len() - 2], SyntaxKind::EndKw);
    assert_eq!(kinds[kinds.len() - 1], SyntaxKind::Ident);
}
