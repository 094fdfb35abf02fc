use mofmt::lexer::tokenize;
use mofmt::SyntaxKind;

fn kinds(source: &str) -> Vec<SyntaxKind> {
    tokenize(source).iter().map(|t| t.kind).collect()
}

fn texts(source: &str) -> Vec<String> {
    tokenize(source).iter().map(|t| t.text.clone()).collect()
}

#[test]
fn token_texts_are_cut_out_of_the_source() {
    assert_eq!(texts("model   A\nequation\n  x=1+2;"), vec![
        "model", "A", "equation", "x", "=", "1", "+", "2", ";"
    ]);
}

#[test]
fn keywords_and_identifiers() {
    assert_eq!(
        kinds("model models end endx 'end' der initial"),
        vec![
            SyntaxKind::ModelKw,
            SyntaxKind::Ident,
            SyntaxKind::EndKw,
            SyntaxKind::Ident,
            SyntaxKind::Ident,
            SyntaxKind::DerKw,
            SyntaxKind::InitialKw,
        ]
    );
}

#[test]
fn numbers() {
    assert_eq!(texts("1 2.5 3. .5 1e3 1.5E-3 2e 7.e+1"), vec![
        "1", "2.5", "3.", ".5", "1e3", "1.5E-3", "2", "e", "7.e+1"
    ]);
    assert_eq!(
        kinds("1 2.5 3. .5 1e3 1.5E-3"),
        vec![
            SyntaxKind::UnsignedInteger,
            SyntaxKind::UnsignedReal,
            SyntaxKind::UnsignedReal,
            SyntaxKind::UnsignedReal,
            SyntaxKind::UnsignedReal,
            SyntaxKind::UnsignedReal,
        ]
    );
}

#[test]
fn operators_take_the_longest_match() {
    assert_eq!(
        kinds("a<=b<>c>=d==e:=f.*g.^h . i <"),
        vec![
            SyntaxKind::Ident,
            SyntaxKind::LessEqual,
            SyntaxKind::Ident,
            SyntaxKind::NotEqual,
            SyntaxKind::Ident,
            SyntaxKind::GreaterEqual,
            SyntaxKind::Ident,
            SyntaxKind::EqualEqual,
            SyntaxKind::Ident,
            SyntaxKind::Assign,
            SyntaxKind::Ident,
            SyntaxKind::DotStar,
            SyntaxKind::Ident,
            SyntaxKind::DotFlex,
            SyntaxKind::Ident,
            SyntaxKind::Dot,
            SyntaxKind::Ident,
            SyntaxKind::Less,
        ]
    );
}

#[test]
fn strings_and_comments_keep_their_text() {
    let source = "\"a \\\" b\" // rest of line\n/* two\nlines */ 'q\\'x'";
    assert_eq!(texts(source), vec!["\"a \\\" b\"", "// rest of line", "/* two\nlines */", "'q\\'x'"]);
    assert_eq!(
        kinds(source),
        vec![
            SyntaxKind::StringLiteral,
            SyntaxKind::LineComment,
            SyntaxKind::BlockComment,
            SyntaxKind::Ident,
        ]
    );
}

#[test]
fn text_outside_the_language_is_unknown() {
    assert_eq!(kinds("a # b"), vec![SyntaxKind::Ident, SyntaxKind::Unknown, SyntaxKind::Ident]);
    assert_eq!(kinds("x /* never closed"), vec![SyntaxKind::Ident, SyntaxKind::Unknown]);
    assert_eq!(kinds("\"never closed"), vec![SyntaxKind::Unknown]);
    assert_eq!(texts("\"never closed"), vec!["\"never closed"]);
}

#[test]
fn lines_are_counted_from_zero() {
    let tokens = tokenize("a\n\n  b /* x\ny */ c\r\nd");
    let lines: Vec<(usize, usize)> = tokens.iter().map(|t| (t.line, t.end_line)).collect();
    assert_eq!(lines, vec![(0, 0), (2, 2), (2, 3), (3, 3), (4, 4)]);
}

#[test]
fn text_beyond_ascii_is_kept() {
    assert_eq!(texts("\"größe → ∞\" // µ"), vec!["\"größe → ∞\"", "// µ"]);
}

#[test]
fn empty_text_has_no_tokens() {
    assert!(tokenize("").is_empty());
    assert!(tokenize(" \n\t\r\n").is_empty());
}

#[test]
fn characters_of_every_width_are_cut_where_they_stand() {
    let source = "Real t \"°C µs\"; // € and 😀\nReal u \"ü\" /* 数 */ = 1;";
    let texts: Vec<String> = tokenize(source).iter().map(|t| t.text.clone()).collect();
    assert_eq!(
        texts,
        vec![
            "Real", "t", "\"°C µs\"", ";", "// € and 😀", "Real", "u", "\"ü\"", "/* 数 */", "=",
            "1", ";"
        ]
    );
    let lines: Vec<usize> = tokenize(source).iter().map(|t| t.line).collect();
    assert_eq!(lines, vec![0, 0, 0, 0, 0, 1, 1, 1, 1, 1, 1, 1]);
}

#[test]
fn a_long_text_with_wide_characters_is_cut_in_one_pass() {
    let mut source = String::new();
    for i in 0..20000 {
        source.push_str(&format!("Real x{} \"µ{}\";\n", i, i));
    }
    let tokens = tokenize(&source);
    assert_eq!(tokens.len(), 80000);
    assert_eq!(tokens[79998].text, "\"µ19999\"");
    assert_eq!(tokens[79998].line, 19999);
}
