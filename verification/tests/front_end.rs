use mofmt::{exit_code, is_modelica, judge, parse_source, Action, Outcome};

const CANONICAL: &str = "model A\nequation\n  x = 1 + 2;\nend A;\n";
const RAGGED: &str = "model   A\nequation\n  x=1+2;\nend A;";

#[test]
fn check_mode_passes_a_canonical_file() {
    let tree = parse_source(CANONICAL).unwrap();
    assert!(matches!(judge(&tree, CANONICAL, None, true, "\n"), Action::CheckPassed));
}

#[test]
fn check_mode_fails_a_ragged_file() {
    let tree = parse_source(RAGGED).unwrap();
    assert!(matches!(judge(&tree, RAGGED, None, true, "\n"), Action::CheckFailed));
}

#[test]
fn check_mode_compares_the_line_terminator_too() {
    let source = "model A\nequation\n  x = 1 + 2;\nend A;";
    let tree = parse_source(source).unwrap();
    assert!(matches!(judge(&tree, source, None, true, "\n"), Action::CheckFailed));
}

#[test]
fn format_mode_writes_the_canonical_text() {
    let tree = parse_source(RAGGED).unwrap();
    match judge(&tree, RAGGED, None, false, "\n") {
        Action::Write(text) => assert_eq!(text, CANONICAL),
        other => panic!("{:?}", other),
    }
    match judge(&tree, RAGGED, None, false, "\r\n") {
        Action::Write(text) => assert_eq!(text, "model A\nequation\n  x = 1 + 2;\nend A;\r\n"),
        other => panic!("{:?}", other),
    }
}

#[test]
fn format_mode_honours_the_line_length() {
    let source = "model A\nequation\n  longVariableName = anotherLongVariableName + yetAnotherOne;\nend A;\n";
    let tree = parse_source(source).unwrap();
    match judge(&tree, source, Some(20), false, "\n") {
        Action::Write(text) => assert_eq!(
            text,
            "model A\nequation\n  longVariableName =\n    anotherLongVariableName\n    + yetAnotherOne;\nend A;\n"
        ),
        other => panic!("{:?}", other),
    }
}

#[test]
fn modelica_files_end_in_mo() {
    assert!(is_modelica("a.mo"));
    assert!(is_modelica("dir/sub/Model.mo"));
    assert!(is_modelica("archive.tar.mo"));
    assert!(is_modelica("..mo"));
    assert!(!is_modelica(".mo"));
    assert!(!is_modelica("dir/.mo"));
    assert!(!is_modelica("a.mos"));
    assert!(!is_modelica("a.MO"));
    assert!(!is_modelica("amo"));
    assert!(is_modelica("a.mo/"));
    assert!(is_modelica("a.mo/."));
    assert!(is_modelica("a.mo//"));
    assert!(is_modelica("dir/a.mo/./"));
    assert!(is_modelica("./a.mo"));
    assert!(!is_modelica("."));
    assert!(!is_modelica("./"));
    assert!(!is_modelica("a.mo/.."));
    assert!(!is_modelica("a.mo/b"));
    assert!(!is_modelica("dir/.mo/"));
    assert!(!is_modelica("/"));
    assert!(!is_modelica(""));
    assert!(!is_modelica("mo"));
    assert!(is_modelica("größe.mo"));
}

#[test]
fn the_run_fails_if_any_file_fails() {
    assert_eq!(exit_code(&vec![]), 0);
    assert_eq!(exit_code(&vec![Outcome::Written, Outcome::CheckPassed]), 0);
    assert_eq!(exit_code(&vec![Outcome::Written, Outcome::CheckFailed, Outcome::Written]), 1);
    assert_eq!(exit_code(&vec![Outcome::SyntaxErrors]), 1);
    assert_eq!(exit_code(&vec![Outcome::CheckPassed, Outcome::Unreadable]), 1);
    assert_eq!(exit_code(&vec![Outcome::Written, Outcome::Unwritable]), 1);
}

#[test]
fn a_syntax_error_names_its_place() {
    let errors = parse_source("model A\nequation\n  x = ;\nend A;").unwrap_err();
    assert_eq!(errors.len(), 1);
    let e = &errors[0];
    assert_eq!(e.line, 2);
    assert_eq!(e.found, ";");
    assert_eq!(e.token, 5);
}

#[test]
fn a_text_that_ends_too_early_is_an_error() {
    let errors = parse_source("model A\n  Real x").unwrap_err();
    assert_eq!(errors.len(), 1);
    let e = &errors[0];
    assert_eq!(e.found, "");
    assert_eq!(e.token, 4);
    assert_eq!(e.line, 1);
}

#[test]
fn text_outside_the_language_is_an_error() {
    let errors = parse_source("model A\n  Real x = 1 # 2;\nend A;").unwrap_err();
    assert_eq!(errors.len(), 1);
    assert_eq!(errors[0].found, "#");
    assert_eq!(errors[0].line, 1);
    let errors = parse_source("model A /* open\nend A;").unwrap_err();
    assert_eq!(errors.len(), 1);
    assert_eq!(errors[0].found, "/* open\nend A;");
    assert_eq!(errors[0].line, 0);
}

#[test]
fn every_token_outside_the_language_is_named() {
    let errors = parse_source("model A\n  Real x = 1 # 2;\n  Real y = ;\n  Real z = ` 3;\nend A;")
        .unwrap_err();
    assert_eq!(errors.len(), 2);
    assert_eq!(errors[0].found, "#");
    assert_eq!(errors[0].line, 1);
    assert_eq!(errors[0].token, 6);
    assert_eq!(errors[1].found, "`");
    assert_eq!(errors[1].line, 3);
    assert_eq!(errors[1].token, 16);
}

#[test]
fn an_empty_text_is_a_tree_without_tokens() {
    let tree = parse_source("").unwrap();
    assert!(tree.root.children.is_empty());
    assert_eq!(tree.pretty_print(), "");
    match judge(&tree, "", None, false, "\n") {
        Action::Write(text) => assert_eq!(text, "\n"),
        other => panic!("{:?}", other),
    }
}

#[test]
fn what_is_written_passes_the_check() {
    let sources = [
        RAGGED,
        "model A\n  Real x; // one\n\n\n  /* two */ Real y;\nend A; // the end",
        "within P;\nmodel A equation y = someFunction(firstArgument, secondArgument, third); end A;\r\n",
    ];
    for source in sources {
        for eol in ["\n", "\r\n"] {
            for width in [None, Some(30), Some(1)] {
                let tree = parse_source(source).unwrap();
                let written = match judge(&tree, source, width, false, eol) {
                    Action::Write(text) => text,
                    other => panic!("{:?}", other),
                };
                let again = parse_source(&written).unwrap();
                assert!(
                    matches!(judge(&again, &written, width, true, eol), Action::CheckPassed),
                    "{:?} {:?} {:?}",
                    source,
                    eol,
                    width
                );
            }
        }
    }
}

#[test]
fn a_line_comment_ends_in_front_of_a_carriage_return() {
    let tree = parse_source("model A // one\r\nend A;\r\n").unwrap();
    assert_eq!(tree.pretty_print(), "model A // one\nend A;");
}
