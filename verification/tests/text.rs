use mofmt::lexer::tokenize;
use mofmt::parser::parse;

fn format_text(source: &str) -> String {
    let tokens = tokenize(source);
    match parse(&tokens) {
        Ok(tree) => tree.pretty_print(),
        Err(e) => panic!("syntax error at line {} near `{}`", e[0].line + 1, e[0].found),
    }
}

fn format_text_within(source: &str, width: usize) -> String {
    let tokens = tokenize(source);
    match parse(&tokens) {
        Ok(tree) => tree.pretty_print_with_line_length(width),
        Err(e) => panic!("syntax error at line {} near `{}`", e[0].line + 1, e[0].found),
    }
}

#[test]
fn a_small_model_is_laid_out() {
    let out = format_text("model   A\nequation\n  x=1+2;\nend A;");
    assert_eq!(out, "model A\nequation\n  x = 1 + 2;\nend A;");
}

#[test]
fn a_long_equation_breaks_behind_the_equal_sign() {
    let source = "model A\nequation\nlongVariableName = anotherLongVariableName + yetAnotherOne;\nend A;";
    let out = format_text_within(source, 20);
    println!("{}", out);
    assert_eq!(
        out,
        "model A\nequation\n  longVariableName =\n    anotherLongVariableName\n    + yetAnotherOne;\nend A;"
    );
}

#[test]
fn empty_lines_between_members_collapse_to_one() {
    let source = "model A\n  Real x;\n\n\n\n  Real y;\nend A;";
    let out = format_text(source);
    assert_eq!(out, "model A\n  Real x;\n\n  Real y;\nend A;");
}

#[test]
fn formatting_twice_changes_nothing() {
    let source = "within  P ;\nmodel A \"a model\"\n  parameter Real k(min=0, max = 10)=1 \"gain\";\n  Real x(start=0) ; // state\n\n\n  /* block */\n  Real y;\nequation\n  der(x) = -k*x + sin(time) ;\n  if x>0 then y=x; else y = -x ; end if;\n  connect( a.b , c[1].d );\nend A;\n";
    let once = format_text(source);
    println!("{}", once);
    let twice = format_text(&once);
    assert_eq!(once, twice);
    let narrow = format_text_within(source, 30);
    println!("{}", narrow);
    assert_eq!(format_text_within(&narrow, 30), narrow);
}
