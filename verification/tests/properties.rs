use mofmt::lexer::tokenize;
use mofmt::parse_source;

const SAMPLE: &str = "within  P ;\nmodel A \"a model\"\n  extends B(x=1);\n  import Modelica.Math.*;\n  parameter Real k(min=0, max = 10)=1 \"gain\";\n  Real x(start=0) ; // state\n\n\n\n  /* block */\n  Real y[3] = {1,2,3};\nprotected\n function f input Real u; output Real v; algorithm v := -u^2; // squared\n if u > 0 then v := u; elseif u < -1 then v:= 2*u; else v := 0; end if;\n\n\n for i in 1:3 loop v := v + i; end for;\n end f;\nequation\n  der(x) = -k*x + sin(time) ;\n  if x>0 then y[1]=x; else y[1] = -x ; end if;\n  y[2] = if x > 0 then 1 else if x < 0 then -1 else 0;\n  connect( a.b , c[1].d ) annotation(Line(points={{0,0},{1,1}}));\n  y[3] = f(x, k=2) + (a + b)*c;\n  // the end\nend A;\n";

fn format_text(source: &str, width: Option<usize>) -> String {
    let tree = parse_source(source).unwrap();
    match width {
        Some(w) => tree.pretty_print_with_line_length(w),
        None => tree.pretty_print(),
    }
}

fn texts(source: &str) -> Vec<String> {
    tokenize(source).iter().map(|t| t.text.clone()).collect()
}

#[test]
fn formatting_is_idempotent() {
    for width in [None, Some(80), Some(40), Some(30), Some(10), Some(1)] {
        let once = format_text(SAMPLE, width);
        let twice = format_text(&once, width);
        assert_eq!(once, twice, "width {:?}", width);
    }
}

#[test]
fn formatting_keeps_every_token() {
    for width in [None, Some(80), Some(30), Some(1)] {
        let out = format_text(SAMPLE, width);
        assert_eq!(texts(&out), texts(SAMPLE), "width {:?}", width);
    }
}

#[test]
fn the_tree_holds_the_tokens_of_the_text() {
    let tree = parse_source(SAMPLE).unwrap();
    let mut leaves = Vec::new();
    tree.root.collect_tokens(&mut leaves);
    let in_tree: Vec<String> = leaves.iter().map(|t| t.text.clone()).collect();
    assert_eq!(in_tree, texts(SAMPLE));
}

#[test]
fn lines_stay_within_the_width() {
    let out = format_text(SAMPLE, Some(40));
    for line in out.lines() {
        assert!(line.chars().count() <= 40, "{:?}", line);
    }
}

#[test]
fn no_more_than_one_empty_line_in_a_row() {
    for width in [None, Some(30)] {
        let out = format_text(SAMPLE, width);
        assert!(!out.contains("\n\n\n"));
        assert!(out.contains("// state\n\n  /* block */\n"));
        assert!(out.contains("end if;\n\n    for i"));
    }
}

#[test]
fn no_line_ends_in_a_space() {
    for width in [None, Some(30), Some(1)] {
        let out = format_text(SAMPLE, width);
        for line in out.lines() {
            assert!(!line.ends_with(' '), "{:?}", line);
        }
        assert!(!out.ends_with('\n'));
        assert!(!out.starts_with(' ') && !out.starts_with('\n'));
    }
}

#[test]
fn comments_stay_where_they_are() {
    let out = format_text(SAMPLE, None);
    assert!(out.contains("  Real x(start = 0); // state\n"));
    assert!(out.contains("    v := -u ^ 2; // squared\n"));
    assert!(out.contains("\n  /* block */\n  Real y[3]"));
    assert!(out.contains(";\n// the end\nend A;"));
}

#[test]
fn a_line_comment_never_takes_in_what_follows() {
    let source = "model A // one\n// two\n  Real x // three\n  = 1 // four\n  ; // five\nend A; // six";
    for width in [None, Some(20), Some(1)] {
        let out = format_text(source, width);
        for (n, line) in out.lines().enumerate() {
            if let Some(at) = line.find("//") {
                let rest = &line[at..];
                assert!(
                    ["// one", "// two", "// three", "// four", "// five", "// six"].contains(&rest),
                    "line {}: {:?}",
                    n,
                    line
                );
            }
        }
        assert_eq!(texts(&out), texts(source));
        assert_eq!(format_text(&out, width), out);
    }
}

#[test]
fn comments_inside_expressions_are_kept() {
    let source = "model A\n  Real x = f(a, // first\n    b /* second */, c) /* third */ + 1;\n  /* fourth */ Real y;\nequation /* fifth */\n  x /* sixth */ = /* seventh */ y; // eighth\nend /* ninth */ A; // tenth\n// eleventh\n";
    for width in [None, Some(40), Some(1)] {
        let out = format_text(source, width);
        assert_eq!(texts(&out), texts(source), "width {:?}", width);
        assert_eq!(format_text(&out, width), out, "width {:?}", width);
        assert!(!out.contains("\n\n\n"));
    }
}

#[test]
fn a_comment_on_a_line_of_its_own_keeps_its_line() {
    let source = "model A\n  Real x;\n  // alone\n\n  // after a gap\n  Real y; /* same line */ /* too */\nend A;";
    let out = format_text(source, None);
    assert_eq!(
        out,
        "model A\n  Real x;\n  // alone\n\n  // after a gap\n  Real y; /* same line */\n/* too */\nend A;"
    );
    assert_eq!(format_text(&out, None), out);
}

#[test]
fn the_token_behind_a_comment_starts_a_line() {
    let out = format_text("model A\n  Real x /* one */ /* two */ = 1 /* three */;\nend A;", None);
    assert_eq!(
        out,
        "model A\n  Real x /* one */\n    /* two */\n    = 1 /* three */\n  ;\nend A;"
    );
    assert_eq!(format_text(&out, None), out);
}

#[test]
fn a_group_that_ends_at_the_width_stays_flat() {
    let source = "model A\nequation\n  x = 1 + 2;\nend A;";
    assert_eq!(format_text(source, Some(12)), "model A\nequation\n  x = 1 + 2;\nend A;");
    assert_eq!(format_text(source, Some(11)), "model A\nequation\n  x = 1 + 2;\nend A;");
    assert_eq!(format_text(source, Some(10)), "model A\nequation\n  x =\n    1 + 2;\nend A;");
    let source = "model A\nequation\n  y = f(a, b);\nend A;";
    assert_eq!(format_text(source, Some(11)), "model A\nequation\n  y =\n    f(a, b);\nend A;");
    assert_eq!(
        format_text(source, Some(10)),
        "model A\nequation\n  y =\n    f(a,\n      b);\nend A;"
    );
}

#[test]
fn a_width_that_no_line_passes_changes_nothing() {
    let sources = [
        SAMPLE,
        "model A\nequation\n  x = 1 // c\n  + 2;\n  y = f(a, // one\n    b, c);\nend A;",
    ];
    for source in sources {
        let free = format_text(source, None);
        let longest = free.lines().map(|l| l.chars().count()).max().unwrap();
        assert_eq!(format_text(source, Some(longest)), free);
        assert_eq!(format_text(source, Some(1000)), free);
    }
    let free = format_text(sources[1], None);
    assert!(free.contains("\n  x = 1 // c\n    + 2;\n"));
}

#[test]
fn an_empty_body_gets_no_empty_line() {
    assert_eq!(format_text("model A end A;", None), "model A\nend A;");
    assert_eq!(format_text("model A\n\n\nend A;", None), "model A\n\nend A;");
}

#[test]
fn a_leading_sign_attaches_to_its_operand() {
    let out = format_text("model A equation x = - a + b - ( -c ); end A;", None);
    assert_eq!(out, "model A\nequation\n  x = -a + b - (-c);\nend A;");
}

#[test]
fn argument_lists_break_after_the_commas() {
    let source = "model A equation y = someFunction(firstArgument, secondArgument, third); end A;";
    let out = format_text(source, Some(40));
    assert_eq!(
        out,
        "model A\nequation\n  y =\n    someFunction(firstArgument,\n      secondArgument,\n      third);\nend A;"
    );
}

#[test]
fn tokens_that_would_merge_are_kept_apart() {
    let source = "within P;\nmodel A\n  import B. *;\n  Real x[1 : 2] = {1. : 2, 1 : 2};\nend A;";
    let out = format_text(source, None);
    assert_eq!(out, "within P;\nmodel A\n  import B. *;\n  Real x[1:2] = {1.:2, 1:2};\nend A;");
    assert_eq!(texts(&out), texts(source));
    assert_eq!(format_text(&out, None), out);
}

#[test]
fn the_line_that_closes_a_class_stands_under_the_line_that_opens_it() {
    let source = "package P model A Real x; model B Real y; end B; end A; end P;";
    for width in [None, Some(20), Some(12)] {
        let text = format_text(source, width);
        let lines: Vec<&str> = text.lines().collect();
        for name in ["P", "A", "B"] {
            let opens = lines
                .iter()
                .find(|l| l.trim_start().ends_with(&format!(" {}", name)) && !l.contains("end"))
                .unwrap();
            let closes = lines.iter().find(|l| l.trim_start() == format!("end {};", name)).unwrap();
            let indent = |l: &str| l.len() - l.trim_start().len();
            assert_eq!(indent(opens), indent(closes), "{}", text);
        }
    }
    assert_eq!(
        format_text(source, None),
        "package P\n  model A\n    Real x;\n    model B\n      Real y;\n    end B;\n  end A;\nend P;"
    );
}
