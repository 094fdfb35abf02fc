//! The lexer: it cuts source text into tokens.
//!
//! Whitespace separates tokens and is dropped; what is kept of it is the
//! line on which each token starts and ends, counted from zero.

use vstd::prelude::*;
use vstd::utf8::encode_utf8;
use crate::offsets::{
    byte_len, cut, lemma_offset_bound, lemma_offset_step, offset, offset_from, width_of,
};
use crate::syntax::{SyntaxKind, Token};

verus! {

/// A token as a stretch of the source: its kind, where it starts and ends
/// in the text, and the lines on which it starts and ends.
pub struct Lexeme {
    pub kind: SyntaxKind,
    pub start: nat,
    pub end: nat,
    pub line: nat,
    pub end_line: nat,
}

/// Whitespace: a space, a tab, a line feed or a carriage return.
pub open spec fn is_space(c: char) -> bool {
    c == ' ' || c == '\t' || c == '\n' || c == '\r'
}

/// A decimal digit.
pub open spec fn is_digit(c: char) -> bool {
    '0' <= c <= '9'
}

/// A letter of the alphabet or an underscore.
pub open spec fn is_letter(c: char) -> bool {
    ('a' <= c <= 'z') || ('A' <= c <= 'Z') || c == '_'
}

/// A character of a word: a letter or a digit.
pub open spec fn is_word(c: char) -> bool {
    is_letter(c) || is_digit(c)
}

/// The end of the word that starts at `pos`.
pub open spec fn word_end(chars: Seq<char>, pos: nat) -> nat
    decreases chars.len() - pos,
{
    if pos < chars.len() && is_word(chars[pos as int]) {
        word_end(chars, pos + 1)
    } else {
        pos
    }
}

/// The end of the digits that start at `pos`.
pub open spec fn digits_end(chars: Seq<char>, pos: nat) -> nat
    decreases chars.len() - pos,
{
    if pos < chars.len() && is_digit(chars[pos as int]) {
        digits_end(chars, pos + 1)
    } else {
        pos
    }
}

/// A character that ends a line: a line feed or a carriage return.
pub open spec fn ends_line(c: char) -> bool {
    c == '\n' || c == '\r'
}

/// The end of the line that holds `pos`: the next character that ends a
/// line, or the end of the text.
pub open spec fn line_end(chars: Seq<char>, pos: nat) -> nat
    decreases chars.len() - pos,
{
    if pos < chars.len() && !ends_line(chars[pos as int]) {
        line_end(chars, pos + 1)
    } else {
        pos
    }
}

/// The position behind the quote that closes the text quoted from `pos` on;
/// a backslash takes the character after it with it. None where the quote
/// is never closed.
pub open spec fn quoted_end(chars: Seq<char>, pos: nat, quote: char) -> Option<nat>
    decreases chars.len() - pos,
{
    if pos >= chars.len() {
        None
    } else if chars[pos as int] == quote {
        Some(pos + 1)
    } else if chars[pos as int] == '\\' {
        if pos + 1 >= chars.len() {
            None
        } else {
            quoted_end(chars, pos + 2, quote)
        }
    } else {
        quoted_end(chars, pos + 1, quote)
    }
}

/// The position behind the first `*/` from `pos` on; none where there is
/// none.
pub open spec fn block_end(chars: Seq<char>, pos: nat) -> Option<nat>
    decreases chars.len() - pos,
{
    if pos + 1 >= chars.len() {
        None
    } else if chars[pos as int] == '*' && chars[pos + 1 as int] == '/' {
        Some(pos + 2)
    } else {
        block_end(chars, pos + 1)
    }
}

/// The end of the number whose digits or dot start at `pos`, and whether it
/// is a real: digits, then a dot with the digits behind it, then an
/// exponent, which is taken only with a digit in it.
pub open spec fn number_end(chars: Seq<char>, pos: nat) -> (nat, bool) {
    let whole = digits_end(chars, pos);
    let (mantissa, dotted) = if char_at(chars, whole) == '.' {
        (digits_end(chars, whole + 1), true)
    } else {
        (whole, false)
    };
    let mark = char_at(chars, mantissa);
    let sign = char_at(chars, mantissa + 1);
    let signed = if sign == '+' || sign == '-' {
        mantissa + 2
    } else {
        mantissa + 1
    };
    if (mark == 'e' || mark == 'E') && is_digit(char_at(chars, signed)) {
        (digits_end(chars, signed), true)
    } else {
        (mantissa, dotted)
    }
}

/// The keyword that a word is, if it is one.
pub open spec fn keyword(word: Seq<char>) -> Option<SyntaxKind> {
    if word == "algorithm"@ {
        Some(SyntaxKind::AlgorithmKw)
    } else if word == "and"@ {
        Some(SyntaxKind::AndKw)
    } else if word == "annotation"@ {
        Some(SyntaxKind::AnnotationKw)
    } else if word == "block"@ {
        Some(SyntaxKind::BlockKw)
    } else if word == "break"@ {
        Some(SyntaxKind::BreakKw)
    } else if word == "class"@ {
        Some(SyntaxKind::ClassKw)
    } else if word == "connect"@ {
        Some(SyntaxKind::ConnectKw)
    } else if word == "connector"@ {
        Some(SyntaxKind::ConnectorKw)
    } else if word == "constant"@ {
        Some(SyntaxKind::ConstantKw)
    } else if word == "constrainedby"@ {
        Some(SyntaxKind::ConstrainedbyKw)
    } else if word == "der"@ {
        Some(SyntaxKind::DerKw)
    } else if word == "discrete"@ {
        Some(SyntaxKind::DiscreteKw)
    } else if word == "each"@ {
        Some(SyntaxKind::EachKw)
    } else if word == "else"@ {
        Some(SyntaxKind::ElseKw)
    } else if word == "elseif"@ {
        Some(SyntaxKind::ElseIfKw)
    } else if word == "elsewhen"@ {
        Some(SyntaxKind::ElseWhenKw)
    } else if word == "encapsulated"@ {
        Some(SyntaxKind::EncapsulatedKw)
    } else if word == "end"@ {
        Some(SyntaxKind::EndKw)
    } else if word == "enumeration"@ {
        Some(SyntaxKind::EnumerationKw)
    } else if word == "equation"@ {
        Some(SyntaxKind::EquationKw)
    } else if word == "expandable"@ {
        Some(SyntaxKind::ExpandableKw)
    } else if word == "extends"@ {
        Some(SyntaxKind::ExtendsKw)
    } else if word == "external"@ {
        Some(SyntaxKind::ExternalKw)
    } else if word == "false"@ {
        Some(SyntaxKind::FalseKw)
    } else if word == "final"@ {
        Some(SyntaxKind::FinalKw)
    } else if word == "flow"@ {
        Some(SyntaxKind::FlowKw)
    } else if word == "for"@ {
        Some(SyntaxKind::ForKw)
    } else if word == "function"@ {
        Some(SyntaxKind::FunctionKw)
    } else if word == "if"@ {
        Some(SyntaxKind::IfKw)
    } else if word == "import"@ {
        Some(SyntaxKind::ImportKw)
    } else if word == "impure"@ {
        Some(SyntaxKind::ImpureKw)
    } else if word == "in"@ {
        Some(SyntaxKind::InKw)
    } else if word == "initial"@ {
        Some(SyntaxKind::InitialKw)
    } else if word == "inner"@ {
        Some(SyntaxKind::InnerKw)
    } else if word == "input"@ {
        Some(SyntaxKind::InputKw)
    } else if word == "loop"@ {
        Some(SyntaxKind::LoopKw)
    } else if word == "model"@ {
        Some(SyntaxKind::ModelKw)
    } else if word == "not"@ {
        Some(SyntaxKind::NotKw)
    } else if word == "operator"@ {
        Some(SyntaxKind::OperatorKw)
    } else if word == "or"@ {
        Some(SyntaxKind::OrKw)
    } else if word == "outer"@ {
        Some(SyntaxKind::OuterKw)
    } else if word == "output"@ {
        Some(SyntaxKind::OutputKw)
    } else if word == "package"@ {
        Some(SyntaxKind::PackageKw)
    } else if word == "parameter"@ {
        Some(SyntaxKind::ParameterKw)
    } else if word == "partial"@ {
        Some(SyntaxKind::PartialKw)
    } else if word == "protected"@ {
        Some(SyntaxKind::ProtectedKw)
    } else if word == "public"@ {
        Some(SyntaxKind::PublicKw)
    } else if word == "pure"@ {
        Some(SyntaxKind::PureKw)
    } else if word == "record"@ {
        Some(SyntaxKind::RecordKw)
    } else if word == "redeclare"@ {
        Some(SyntaxKind::RedeclareKw)
    } else if word == "replaceable"@ {
        Some(SyntaxKind::ReplaceableKw)
    } else if word == "return"@ {
        Some(SyntaxKind::ReturnKw)
    } else if word == "stream"@ {
        Some(SyntaxKind::StreamKw)
    } else if word == "then"@ {
        Some(SyntaxKind::ThenKw)
    } else if word == "true"@ {
        Some(SyntaxKind::TrueKw)
    } else if word == "type"@ {
        Some(SyntaxKind::TypeKw)
    } else if word == "when"@ {
        Some(SyntaxKind::WhenKw)
    } else if word == "while"@ {
        Some(SyntaxKind::WhileKw)
    } else if word == "within"@ {
        Some(SyntaxKind::WithinKw)
    } else {
        None
    }
}

/// The operator or bracket that starts with `c`, given the character `d`
/// behind it (a space where the text ends), and its length.
pub open spec fn punctuation(c: char, d: char) -> (SyntaxKind, nat) {
    if c == '.' {
        if d == '+' {
            (SyntaxKind::DotPlus, 2)
        } else if d == '-' {
            (SyntaxKind::DotMinus, 2)
        } else if d == '*' {
            (SyntaxKind::DotStar, 2)
        } else if d == '/' {
            (SyntaxKind::DotSlash, 2)
        } else if d == '^' {
            (SyntaxKind::DotFlex, 2)
        } else {
            (SyntaxKind::Dot, 1)
        }
    } else if c == '<' {
        if d == '=' {
            (SyntaxKind::LessEqual, 2)
        } else if d == '>' {
            (SyntaxKind::NotEqual, 2)
        } else {
            (SyntaxKind::Less, 1)
        }
    } else if c == '>' {
        if d == '=' {
            (SyntaxKind::GreaterEqual, 2)
        } else {
            (SyntaxKind::Greater, 1)
        }
    } else if c == '=' {
        if d == '=' {
            (SyntaxKind::EqualEqual, 2)
        } else {
            (SyntaxKind::Equal, 1)
        }
    } else if c == ':' {
        if d == '=' {
            (SyntaxKind::Assign, 2)
        } else {
            (SyntaxKind::Colon, 1)
        }
    } else if c == '+' {
        (SyntaxKind::Plus, 1)
    } else if c == '-' {
        (SyntaxKind::Minus, 1)
    } else if c == '*' {
        (SyntaxKind::Star, 1)
    } else if c == '/' {
        (SyntaxKind::Slash, 1)
    } else if c == '^' {
        (SyntaxKind::Flex, 1)
    } else if c == '(' {
        (SyntaxKind::LParen, 1)
    } else if c == ')' {
        (SyntaxKind::RParen, 1)
    } else if c == '[' {
        (SyntaxKind::LBracket, 1)
    } else if c == ']' {
        (SyntaxKind::RBracket, 1)
    } else if c == '{' {
        (SyntaxKind::LCurly, 1)
    } else if c == '}' {
        (SyntaxKind::RCurly, 1)
    } else if c == ',' {
        (SyntaxKind::Comma, 1)
    } else if c == ';' {
        (SyntaxKind::Semicolon, 1)
    } else {
        (SyntaxKind::Unknown, 1)
    }
}

/// The character at `pos`, or a space behind the end of the text.
pub open spec fn char_at(chars: Seq<char>, pos: nat) -> char {
    if pos < chars.len() {
        chars[pos as int]
    } else {
        ' '
    }
}

/// The kind and the end of the token that starts at `pos`, where no space
/// stands. The longest token is taken. A comment or a quoted text that is
/// never closed runs to the end of the text and is no token of the
/// language.
pub open spec fn token_at(chars: Seq<char>, pos: nat) -> (SyntaxKind, nat) {
    let c = char_at(chars, pos);
    let d = char_at(chars, pos + 1);
    if c == '/' && d == '/' {
        (SyntaxKind::LineComment, line_end(chars, pos))
    } else if c == '/' && d == '*' {
        match block_end(chars, pos + 2) {
            Some(end) => (SyntaxKind::BlockComment, end),
            None => (SyntaxKind::Unknown, chars.len()),
        }
    } else if c == '"' {
        match quoted_end(chars, pos + 1, '"') {
            Some(end) => (SyntaxKind::StringLiteral, end),
            None => (SyntaxKind::Unknown, chars.len()),
        }
    } else if c == '\'' {
        match quoted_end(chars, pos + 1, '\'') {
            Some(end) => (SyntaxKind::Ident, end),
            None => (SyntaxKind::Unknown, chars.len()),
        }
    } else if is_letter(c) {
        let end = word_end(chars, pos);
        match keyword(chars.subrange(pos as int, end as int)) {
            Some(kind) => (kind, end),
            None => (SyntaxKind::Ident, end),
        }
    } else if is_digit(c) || (c == '.' && is_digit(d)) {
        let (end, fraction) = number_end(chars, pos);
        if fraction {
            (SyntaxKind::UnsignedReal, end)
        } else {
            (SyntaxKind::UnsignedInteger, end)
        }
    } else {
        let (kind, len) = punctuation(c, d);
        (kind, pos + len)
    }
}

/// The number of line feeds from `from` up to `to`.
pub open spec fn feeds_between(chars: Seq<char>, from: nat, to: nat) -> nat
    decreases to - from,
{
    if from >= to || to > chars.len() {
        0
    } else {
        feeds_between(chars, from, (to - 1) as nat) + if chars[to - 1] == '\n' {
            1nat
        } else {
            0nat
        }
    }
}

/// The tokens of the text from `pos` on, where `line` is the line that
/// holds `pos`.
pub open spec fn lexemes_from(chars: Seq<char>, pos: nat, line: nat) -> Seq<Lexeme>
    decreases chars.len() - pos,
{
    if pos >= chars.len() {
        Seq::empty()
    } else if is_space(chars[pos as int]) {
        lexemes_from(chars, pos + 1, if chars[pos as int] == '\n' { line + 1 } else { line })
    } else {
        let (kind, end) = token_at(chars, pos);
        if pos < end <= chars.len() {
            let end_line = line + feeds_between(chars, pos, end);
            seq![Lexeme { kind, start: pos, end, line, end_line }] + lexemes_from(
                chars,
                end,
                end_line,
            )
        } else {
            Seq::empty()
        }
    }
}

/// The tokens of a text.
#[verifier::opaque]
pub open spec fn lexemes(chars: Seq<char>) -> Seq<Lexeme> {
    lexemes_from(chars, 0, 0)
}

/// Nothing but whitespace stands from `from` up to `to`.
pub open spec fn blank_between(chars: Seq<char>, from: nat, to: nat) -> bool {
    forall|i: int| from <= i < to ==> is_space(#[trigger] chars[i])
}

/// The stretches `ls` lie in the text from `pos` on, in order and not
/// empty, with nothing but whitespace in front of, between and behind
/// them; each is the longest token at its place; `line` is the line that
/// holds `pos`, and each stretch starts and ends on the line that the line
/// feeds in front of it count.
pub open spec fn covers(chars: Seq<char>, ls: Seq<Lexeme>, pos: nat, line: nat) -> bool
    decreases ls.len(),
{
    if ls.len() == 0 {
        pos <= chars.len() && blank_between(chars, pos, chars.len())
    } else {
        let l = ls[0];
        &&& pos <= l.start < l.end <= chars.len()
        &&& blank_between(chars, pos, l.start)
        &&& !is_space(chars[l.start as int])
        &&& token_at(chars, l.start) == (l.kind, l.end)
        &&& l.line == line + feeds_between(chars, pos, l.start)
        &&& l.end_line == l.line + feeds_between(chars, l.start, l.end)
        &&& covers(chars, ls.drop_first(), l.end, l.end_line)
    }
}

/// A word ends within the text, and behind its first character.
pub proof fn lemma_word_end_bounds(chars: Seq<char>, pos: nat)
    requires
        pos <= chars.len(),
    ensures
        pos <= word_end(chars, pos) <= chars.len(),
        pos < chars.len() && is_word(chars[pos as int]) ==> pos < word_end(chars, pos),
    decreases chars.len() - pos,
{
    if pos < chars.len() && is_word(chars[pos as int]) {
        lemma_word_end_bounds(chars, pos + 1);
    }
}

/// A line ends within the text.
pub proof fn lemma_line_end_bounds(chars: Seq<char>, pos: nat)
    requires
        pos <= chars.len(),
    ensures
        pos <= line_end(chars, pos) <= chars.len(),
        pos < chars.len() && !ends_line(chars[pos as int]) ==> pos < line_end(chars, pos),
    decreases chars.len() - pos,
{
    if pos < chars.len() && !ends_line(chars[pos as int]) {
        lemma_line_end_bounds(chars, pos + 1);
    }
}

/// A quoted text ends within the text.
pub proof fn lemma_quoted_end_bounds(chars: Seq<char>, pos: nat, quote: char)
    requires
        pos <= chars.len(),
    ensures
        quoted_end(chars, pos, quote) matches Some(end) ==> pos < end <= chars.len(),
    decreases chars.len() - pos,
{
    if pos < chars.len() && chars[pos as int] != quote {
        if chars[pos as int] == '\\' {
            if pos + 1 < chars.len() {
                lemma_quoted_end_bounds(chars, pos + 2, quote);
            }
        } else {
            lemma_quoted_end_bounds(chars, pos + 1, quote);
        }
    }
}

/// A block comment ends within the text.
pub proof fn lemma_block_end_bounds(chars: Seq<char>, pos: nat)
    requires
        pos <= chars.len(),
    ensures
        block_end(chars, pos) matches Some(end) ==> pos < end <= chars.len(),
    decreases chars.len() - pos,
{
    if pos + 1 < chars.len() && !(chars[pos as int] == '*' && chars[pos + 1 as int] == '/') {
        lemma_block_end_bounds(chars, pos + 1);
    }
}

/// A token is not empty and ends within the text.
pub proof fn lemma_token_moves(chars: Seq<char>, pos: nat)
    requires
        pos < chars.len(),
        !is_space(chars[pos as int]),
    ensures
        pos < token_at(chars, pos).1 <= chars.len(),
{
    let c = char_at(chars, pos);
    let d = char_at(chars, pos + 1);
    lemma_line_end_bounds(chars, pos);
    lemma_word_end_bounds(chars, pos);
    lemma_quoted_end_bounds(chars, pos + 1, '"');
    lemma_quoted_end_bounds(chars, pos + 1, '\'');
    if pos + 2 <= chars.len() {
        lemma_block_end_bounds(chars, pos + 2);
    }
    if is_digit(c) || (c == '.' && is_digit(d)) {
        lemma_number_moves(chars, pos);
        lemma_number_bounds(chars, pos);
    }
}

/// A number ends within the text.
pub proof fn lemma_number_bounds(chars: Seq<char>, pos: nat)
    requires
        pos <= chars.len(),
    ensures
        number_end(chars, pos).0 <= chars.len(),
{
    lemma_digits_end_bounds(chars, pos);
    let whole = digits_end(chars, pos);
    if char_at(chars, whole) == '.' {
        lemma_digits_end_bounds(chars, whole + 1);
    }
    let m = if char_at(chars, whole) == '.' {
        digits_end(chars, whole + 1)
    } else {
        whole
    };
    lemma_digits_end_bounds(chars, m + 1);
    lemma_digits_end_bounds(chars, m + 2);
}

/// The line feeds of two adjacent stretches add up.
pub proof fn lemma_feeds_split(chars: Seq<char>, from: nat, mid: nat, to: nat)
    requires
        from <= mid <= to <= chars.len(),
    ensures
        feeds_between(chars, from, to) == feeds_between(chars, from, mid) + feeds_between(
            chars,
            mid,
            to,
        ),
    decreases to - mid,
{
    if mid < to {
        lemma_feeds_split(chars, from, mid, (to - 1) as nat);
    }
}

/// The lexer loses nothing: the tokens of a text lie in it in order, and
/// nothing but whitespace stands around and between them.
pub proof fn lemma_lexemes_lossless(chars: Seq<char>)
    ensures
        covers(chars, lexemes(chars), 0, 0),
{
    reveal(lexemes);
    lemma_lexemes_cover(chars, 0, 0);
}

/// The tokens of a text from a place on lie in it in order, and nothing
/// but whitespace stands around and between them.
pub proof fn lemma_lexemes_cover(chars: Seq<char>, pos: nat, line: nat)
    requires
        pos <= chars.len(),
    ensures
        covers(chars, lexemes_from(chars, pos, line), pos, line),
    decreases chars.len() - pos,
{
    if pos < chars.len() {
        if is_space(chars[pos as int]) {
            let next_line = if chars[pos as int] == '\n' {
                line + 1
            } else {
                line
            };
            let ls = lexemes_from(chars, pos + 1, next_line);
            lemma_lexemes_cover(chars, pos + 1, next_line);
            if ls.len() > 0 {
                lemma_feeds_split(chars, pos, pos + 1, ls[0].start);
                assert(feeds_between(chars, pos, pos + 1) == next_line - line) by {
                    assert(feeds_between(chars, pos, pos) == 0);
                }
            }
        } else {
            let (kind, end) = token_at(chars, pos);
            lemma_token_moves(chars, pos);
            let end_line = line + feeds_between(chars, pos, end);
            let l = Lexeme { kind, start: pos, end, line, end_line };
            let rest = lexemes_from(chars, end, end_line);
            lemma_lexemes_cover(chars, end, end_line);
            assert((seq![l] + rest).drop_first() =~= rest);
            assert(feeds_between(chars, pos, pos) == 0);
        }
    }
}

/// Executable form of [`char_at`].
fn peek(chars: &Vec<char>, pos: usize) -> (c: char)
    ensures
        c == char_at(chars@, pos as nat),
{
    if pos < chars.len() {
        chars[pos]
    } else {
        ' '
    }
}

fn space(c: char) -> (b: bool)
    ensures
        b == is_space(c),
{
    c == ' ' || c == '\t' || c == '\n' || c == '\r'
}

fn digit(c: char) -> (b: bool)
    ensures
        b == is_digit(c),
{
    '0' <= c && c <= '9'
}

fn letter(c: char) -> (b: bool)
    ensures
        b == is_letter(c),
{
    ('a' <= c && c <= 'z') || ('A' <= c && c <= 'Z') || c == '_'
}

/// Executable form of [`word_end`].
fn skip_word(chars: &Vec<char>, pos: usize) -> (end: usize)
    requires
        pos <= chars@.len(),
    ensures
        end == word_end(chars@, pos as nat),
        pos <= end <= chars@.len(),
{
    let mut at: usize = pos;
    while at < chars.len() && (letter(chars[at]) || digit(chars[at]))
        invariant
            pos <= at <= chars@.len(),
            word_end(chars@, pos as nat) == word_end(chars@, at as nat),
        decreases chars@.len() - at,
    {
        at = at + 1;
    }
    at
}

/// Executable form of [`digits_end`].
fn skip_digits(chars: &Vec<char>, pos: usize) -> (end: usize)
    requires
        pos <= chars@.len(),
    ensures
        end == digits_end(chars@, pos as nat),
        pos <= end <= chars@.len(),
{
    let mut at: usize = pos;
    while at < chars.len() && digit(chars[at])
        invariant
            pos <= at <= chars@.len(),
            digits_end(chars@, pos as nat) == digits_end(chars@, at as nat),
        decreases chars@.len() - at,
    {
        at = at + 1;
    }
    at
}

/// Executable form of [`line_end`].
fn skip_line(chars: &Vec<char>, pos: usize) -> (end: usize)
    requires
        pos <= chars@.len(),
    ensures
        end == line_end(chars@, pos as nat),
        pos <= end <= chars@.len(),
{
    let mut at: usize = pos;
    while at < chars.len() && chars[at] != '\n' && chars[at] != '\r'
        invariant
            pos <= at <= chars@.len(),
            line_end(chars@, pos as nat) == line_end(chars@, at as nat),
        decreases chars@.len() - at,
    {
        at = at + 1;
    }
    at
}

/// Executable form of [`quoted_end`].
fn close_quote(chars: &Vec<char>, pos: usize, quote: char) -> (end: Option<usize>)
    requires
        pos <= chars@.len(),
    ensures
        match end {
            Some(e) => quoted_end(chars@, pos as nat, quote) == Some(e as nat) && pos < e
                <= chars@.len(),
            None => quoted_end(chars@, pos as nat, quote) is None,
        },
{
    let n = chars.len();
    let mut at: usize = pos;
    while at < n
        invariant
            n == chars@.len(),
            pos <= at <= n,
            quoted_end(chars@, pos as nat, quote) == quoted_end(chars@, at as nat, quote),
        decreases n - at,
    {
        let c = chars[at];
        if c == quote {
            return Some(at + 1);
        } else if c == '\\' {
            if at + 1 >= n {
                return None;
            }
            at = at + 2;
        } else {
            at = at + 1;
        }
    }
    None
}

/// Executable form of [`block_end`].
fn close_block(chars: &Vec<char>, pos: usize) -> (end: Option<usize>)
    requires
        pos <= chars@.len(),
    ensures
        match end {
            Some(e) => block_end(chars@, pos as nat) == Some(e as nat) && pos < e <= chars@.len(),
            None => block_end(chars@, pos as nat) is None,
        },
{
    let n = chars.len();
    let mut at: usize = pos;
    while at < n && at + 1 < n
        invariant
            n == chars@.len(),
            pos <= at <= n,
            block_end(chars@, pos as nat) == block_end(chars@, at as nat),
        decreases n - at,
    {
        if chars[at] == '*' && chars[at + 1] == '/' {
            return Some(at + 2);
        }
        at = at + 1;
    }
    None
}

/// Executable form of [`number_end`].
fn skip_number(chars: &Vec<char>, pos: usize) -> (r: (usize, bool))
    requires
        pos < chars@.len(),
    ensures
        r.0 == number_end(chars@, pos as nat).0,
        r.1 == number_end(chars@, pos as nat).1,
        pos <= r.0 <= chars@.len(),
{
    let n = chars.len();
    let whole = skip_digits(chars, pos);
    let mut mantissa = whole;
    let mut dotted = false;
    if peek(chars, whole) == '.' {
        mantissa = skip_digits(chars, whole + 1);
        dotted = true;
    }
    let mark = peek(chars, mantissa);
    if mark == 'e' || mark == 'E' {
        let sign = peek(chars, mantissa + 1);
        let signed = if sign == '+' || sign == '-' {
            mantissa + 2
        } else {
            mantissa + 1
        };
        if digit(peek(chars, signed)) {
            return (skip_digits(chars, signed), true);
        }
    }
    (mantissa, dotted)
}

/// Whether the characters from `from` up to `to` spell `word`.
fn same(chars: &Vec<char>, from: usize, to: usize, word: &str) -> (b: bool)
    requires
        from <= to <= chars@.len(),
    ensures
        b == (chars@.subrange(from as int, to as int) == word@),
{
    let n = word.unicode_len();
    if to - from != n {
        return false;
    }
    let mut i: usize = 0;
    while i < n
        invariant
            n == word@.len(),
            to - from == n,
            from <= to <= chars@.len(),
            i <= n,
            forall|k: int| 0 <= k < i ==> chars@[from + k] == word@[k],
        decreases n - i,
    {
        if chars[from + i] != word.get_char(i) {
            assert(chars@.subrange(from as int, to as int)[i as int] != word@[i as int]);
            return false;
        }
        i = i + 1;
    }
    assert(chars@.subrange(from as int, to as int) =~= word@);
    true
}

/// Executable form of [`keyword`].
fn keyword_of(chars: &Vec<char>, from: usize, to: usize) -> (k: Option<SyntaxKind>)
    requires
        from <= to <= chars@.len(),
    ensures
        k == keyword(chars@.subrange(from as int, to as int)),
{
    if same(chars, from, to, "algorithm") {
        Some(SyntaxKind::AlgorithmKw)
    } else if same(chars, from, to, "and") {
        Some(SyntaxKind::AndKw)
    } else if same(chars, from, to, "annotation") {
        Some(SyntaxKind::AnnotationKw)
    } else if same(chars, from, to, "block") {
        Some(SyntaxKind::BlockKw)
    } else if same(chars, from, to, "break") {
        Some(SyntaxKind::BreakKw)
    } else if same(chars, from, to, "class") {
        Some(SyntaxKind::ClassKw)
    } else if same(chars, from, to, "connect") {
        Some(SyntaxKind::ConnectKw)
    } else if same(chars, from, to, "connector") {
        Some(SyntaxKind::ConnectorKw)
    } else if same(chars, from, to, "constant") {
        Some(SyntaxKind::ConstantKw)
    } else if same(chars, from, to, "constrainedby") {
        Some(SyntaxKind::ConstrainedbyKw)
    } else if same(chars, from, to, "der") {
        Some(SyntaxKind::DerKw)
    } else if same(chars, from, to, "discrete") {
        Some(SyntaxKind::DiscreteKw)
    } else if same(chars, from, to, "each") {
        Some(SyntaxKind::EachKw)
    } else if same(chars, from, to, "else") {
        Some(SyntaxKind::ElseKw)
    } else if same(chars, from, to, "elseif") {
        Some(SyntaxKind::ElseIfKw)
    } else if same(chars, from, to, "elsewhen") {
        Some(SyntaxKind::ElseWhenKw)
    } else if same(chars, from, to, "encapsulated") {
        Some(SyntaxKind::EncapsulatedKw)
    } else if same(chars, from, to, "end") {
        Some(SyntaxKind::EndKw)
    } else if same(chars, from, to, "enumeration") {
        Some(SyntaxKind::EnumerationKw)
    } else if same(chars, from, to, "equation") {
        Some(SyntaxKind::EquationKw)
    } else if same(chars, from, to, "expandable") {
        Some(SyntaxKind::ExpandableKw)
    } else if same(chars, from, to, "extends") {
        Some(SyntaxKind::ExtendsKw)
    } else if same(chars, from, to, "external") {
        Some(SyntaxKind::ExternalKw)
    } else if same(chars, from, to, "false") {
        Some(SyntaxKind::FalseKw)
    } else if same(chars, from, to, "final") {
        Some(SyntaxKind::FinalKw)
    } else if same(chars, from, to, "flow") {
        Some(SyntaxKind::FlowKw)
    } else if same(chars, from, to, "for") {
        Some(SyntaxKind::ForKw)
    } else if same(chars, from, to, "function") {
        Some(SyntaxKind::FunctionKw)
    } else if same(chars, from, to, "if") {
        Some(SyntaxKind::IfKw)
    } else if same(chars, from, to, "import") {
        Some(SyntaxKind::ImportKw)
    } else if same(chars, from, to, "impure") {
        Some(SyntaxKind::ImpureKw)
    } else if same(chars, from, to, "in") {
        Some(SyntaxKind::InKw)
    } else if same(chars, from, to, "initial") {
        Some(SyntaxKind::InitialKw)
    } else if same(chars, from, to, "inner") {
        Some(SyntaxKind::InnerKw)
    } else if same(chars, from, to, "input") {
        Some(SyntaxKind::InputKw)
    } else if same(chars, from, to, "loop") {
        Some(SyntaxKind::LoopKw)
    } else if same(chars, from, to, "model") {
        Some(SyntaxKind::ModelKw)
    } else if same(chars, from, to, "not") {
        Some(SyntaxKind::NotKw)
    } else if same(chars, from, to, "operator") {
        Some(SyntaxKind::OperatorKw)
    } else if same(chars, from, to, "or") {
        Some(SyntaxKind::OrKw)
    } else if same(chars, from, to, "outer") {
        Some(SyntaxKind::OuterKw)
    } else if same(chars, from, to, "output") {
        Some(SyntaxKind::OutputKw)
    } else if same(chars, from, to, "package") {
        Some(SyntaxKind::PackageKw)
    } else if same(chars, from, to, "parameter") {
        Some(SyntaxKind::ParameterKw)
    } else if same(chars, from, to, "partial") {
        Some(SyntaxKind::PartialKw)
    } else if same(chars, from, to, "protected") {
        Some(SyntaxKind::ProtectedKw)
    } else if same(chars, from, to, "public") {
        Some(SyntaxKind::PublicKw)
    } else if same(chars, from, to, "pure") {
        Some(SyntaxKind::PureKw)
    } else if same(chars, from, to, "record") {
        Some(SyntaxKind::RecordKw)
    } else if same(chars, from, to, "redeclare") {
        Some(SyntaxKind::RedeclareKw)
    } else if same(chars, from, to, "replaceable") {
        Some(SyntaxKind::ReplaceableKw)
    } else if same(chars, from, to, "return") {
        Some(SyntaxKind::ReturnKw)
    } else if same(chars, from, to, "stream") {
        Some(SyntaxKind::StreamKw)
    } else if same(chars, from, to, "then") {
        Some(SyntaxKind::ThenKw)
    } else if same(chars, from, to, "true") {
        Some(SyntaxKind::TrueKw)
    } else if same(chars, from, to, "type") {
        Some(SyntaxKind::TypeKw)
    } else if same(chars, from, to, "when") {
        Some(SyntaxKind::WhenKw)
    } else if same(chars, from, to, "while") {
        Some(SyntaxKind::WhileKw)
    } else if same(chars, from, to, "within") {
        Some(SyntaxKind::WithinKw)
    } else {
        None
    }
}

/// Executable form of [`punctuation`].
fn punctuation_of(c: char, d: char) -> (r: (SyntaxKind, usize))
    ensures
        r.0 == punctuation(c, d).0,
        r.1 == punctuation(c, d).1,
        1 <= r.1 <= 2,
        r.1 == 2 ==> d != ' ',
{
    if c == '.' {
        if d == '+' {
            (SyntaxKind::DotPlus, 2)
        } else if d == '-' {
            (SyntaxKind::DotMinus, 2)
        } else if d == '*' {
            (SyntaxKind::DotStar, 2)
        } else if d == '/' {
            (SyntaxKind::DotSlash, 2)
        } else if d == '^' {
            (SyntaxKind::DotFlex, 2)
        } else {
            (SyntaxKind::Dot, 1)
        }
    } else if c == '<' {
        if d == '=' {
            (SyntaxKind::LessEqual, 2)
        } else if d == '>' {
            (SyntaxKind::NotEqual, 2)
        } else {
            (SyntaxKind::Less, 1)
        }
    } else if c == '>' {
        if d == '=' {
            (SyntaxKind::GreaterEqual, 2)
        } else {
            (SyntaxKind::Greater, 1)
        }
    } else if c == '=' {
        if d == '=' {
            (SyntaxKind::EqualEqual, 2)
        } else {
            (SyntaxKind::Equal, 1)
        }
    } else if c == ':' {
        if d == '=' {
            (SyntaxKind::Assign, 2)
        } else {
            (SyntaxKind::Colon, 1)
        }
    } else if c == '+' {
        (SyntaxKind::Plus, 1)
    } else if c == '-' {
        (SyntaxKind::Minus, 1)
    } else if c == '*' {
        (SyntaxKind::Star, 1)
    } else if c == '/' {
        (SyntaxKind::Slash, 1)
    } else if c == '^' {
        (SyntaxKind::Flex, 1)
    } else if c == '(' {
        (SyntaxKind::LParen, 1)
    } else if c == ')' {
        (SyntaxKind::RParen, 1)
    } else if c == '[' {
        (SyntaxKind::LBracket, 1)
    } else if c == ']' {
        (SyntaxKind::RBracket, 1)
    } else if c == '{' {
        (SyntaxKind::LCurly, 1)
    } else if c == '}' {
        (SyntaxKind::RCurly, 1)
    } else if c == ',' {
        (SyntaxKind::Comma, 1)
    } else if c == ';' {
        (SyntaxKind::Semicolon, 1)
    } else {
        (SyntaxKind::Unknown, 1)
    }
}

/// Executable form of [`token_at`].
fn next_token(chars: &Vec<char>, pos: usize) -> (r: (SyntaxKind, usize))
    requires
        pos < chars@.len(),
        !is_space(chars@[pos as int]),
    ensures
        r.0 == token_at(chars@, pos as nat).0,
        r.1 == token_at(chars@, pos as nat).1,
        pos < r.1 <= chars@.len(),
{
    let n = chars.len();
    let c = peek(chars, pos);
    let d = peek(chars, pos + 1);
    if c == '/' && d == '/' {
        (SyntaxKind::LineComment, skip_line(chars, pos + 1))
    } else if c == '/' && d == '*' {
        match close_block(chars, pos + 2) {
            Some(end) => (SyntaxKind::BlockComment, end),
            None => (SyntaxKind::Unknown, n),
        }
    } else if c == '"' {
        match close_quote(chars, pos + 1, '"') {
            Some(end) => (SyntaxKind::StringLiteral, end),
            None => (SyntaxKind::Unknown, n),
        }
    } else if c == '\'' {
        match close_quote(chars, pos + 1, '\'') {
            Some(end) => (SyntaxKind::Ident, end),
            None => (SyntaxKind::Unknown, n),
        }
    } else if letter(c) {
        let end = skip_word(chars, pos + 1);
        match keyword_of(chars, pos, end) {
            Some(kind) => (kind, end),
            None => (SyntaxKind::Ident, end),
        }
    } else if digit(c) || (c == '.' && digit(d)) {
        let (end, fraction) = skip_number(chars, pos);
        proof {
            lemma_number_moves(chars@, pos as nat);
        }
        if fraction {
            (SyntaxKind::UnsignedReal, end)
        } else {
            (SyntaxKind::UnsignedInteger, end)
        }
    } else {
        let (kind, len) = punctuation_of(c, d);
        (kind, pos + len)
    }
}

/// A number is not empty.
pub proof fn lemma_number_moves(chars: Seq<char>, pos: nat)
    requires
        pos < chars.len(),
        is_digit(chars[pos as int]) || (chars[pos as int] == '.' && is_digit(
            char_at(chars, pos + 1),
        )),
    ensures
        number_end(chars, pos).0 > pos,
{
    lemma_digits_end_bounds(chars, pos);
    lemma_digits_end_bounds(chars, pos + 1);
    let whole = digits_end(chars, pos);
    if char_at(chars, whole) == '.' {
        lemma_digits_end_bounds(chars, whole + 1);
    }
    let mantissa = number_end(chars, pos).0;
    let m = if char_at(chars, whole) == '.' {
        digits_end(chars, whole + 1)
    } else {
        whole
    };
    lemma_digits_end_bounds(chars, m + 1);
    lemma_digits_end_bounds(chars, m + 2);
}

/// A run of digits ends within the text, and behind its first digit.
pub proof fn lemma_digits_end_bounds(chars: Seq<char>, pos: nat)
    ensures
        pos <= digits_end(chars, pos),
        pos <= chars.len() ==> digits_end(chars, pos) <= chars.len(),
        pos < chars.len() && is_digit(chars[pos as int]) ==> digits_end(chars, pos) > pos,
    decreases chars.len() - pos,
{
    if pos < chars.len() && is_digit(chars[pos as int]) {
        lemma_digits_end_bounds(chars, pos + 1);
    }
}

/// Executable form of [`feeds_between`].
fn count_feeds(chars: &Vec<char>, from: usize, to: usize) -> (n: usize)
    requires
        from <= to <= chars@.len(),
    ensures
        n == feeds_between(chars@, from as nat, to as nat),
        n <= to - from,
{
    let mut n: usize = 0;
    let mut at: usize = from;
    while at < to
        invariant
            from <= at <= to <= chars@.len(),
            n == feeds_between(chars@, from as nat, at as nat),
            n <= at - from,
        decreases to - at,
    {
        if chars[at] == '\n' {
            n = n + 1;
        }
        at = at + 1;
    }
    n
}

/// The token `t` is the stretch `l` of the text `chars`.
pub open spec fn describes(t: Token, l: Lexeme, chars: Seq<char>) -> bool {
    &&& t.kind == l.kind
    &&& t.text@ == chars.subrange(l.start as int, l.end as int)
    &&& t.line == l.line
    &&& t.end_line == l.end_line
}

/// The tokens `tokens` are the stretches `ls` of the text `chars`.
pub open spec fn describe_all(tokens: Seq<Token>, ls: Seq<Lexeme>, chars: Seq<char>) -> bool {
    &&& tokens.len() == ls.len()
    &&& forall|i: int| 0 <= i < tokens.len() ==> describes(#[trigger] tokens[i], ls[i], chars)
}

/// Cuts the characters of a text into tokens.
fn tokenize_chars(source: &str, chars: &Vec<char>) -> (tokens: Vec<Token>)
    requires
        chars@ == source@,
    ensures
        describe_all(tokens@, lexemes(chars@), chars@),
{
    proof {
        reveal(lexemes);
    }
    let n = chars.len();
    let bytes = byte_len(source);
    let mut tokens: Vec<Token> = Vec::new();
    let ghost mut done: Seq<Lexeme> = Seq::empty();
    let mut pos: usize = 0;
    let mut at: usize = 0;
    let mut line: usize = 0;
    assert(lexemes(chars@) =~= done + lexemes_from(chars@, 0, 0));
    assert(chars@.take(0) =~= Seq::<char>::empty());
    while pos < n
        invariant
            n == chars@.len(),
            chars@ == source@,
            bytes == encode_utf8(chars@).len(),
            at == offset(chars@, pos as int),
            pos <= n,
            line <= pos,
            describe_all(tokens@, done, chars@),
            lexemes(chars@) == done + lexemes_from(chars@, pos as nat, line as nat),
        decreases n - pos,
    {
        let c = chars[pos];
        if space(c) {
            if c == '\n' {
                line = line + 1;
            }
            proof {
                lemma_offset_step(chars@, pos as int);
                lemma_offset_bound(chars@, pos + 1);
            }
            at = at + width_of(c);
            pos = pos + 1;
        } else {
            let (kind, end) = next_token(chars, pos);
            let feeds = count_feeds(chars, pos, end);
            let end_line = line + feeds;
            let at_end = offset_from(chars, pos, end, at);
            let text = cut(source, at, at_end, Ghost(pos as int), Ghost(end as int));
            let ghost l = Lexeme {
                kind,
                start: pos as nat,
                end: end as nat,
                line: line as nat,
                end_line: end_line as nat,
            };
            let ghost rest = lexemes_from(chars@, end as nat, end_line as nat);
            assert(lexemes_from(chars@, pos as nat, line as nat) == seq![l] + rest);
            tokens.push(Token { kind, text, line, end_line });
            proof {
                assert(done + (seq![l] + rest) =~= done.push(l) + rest);
                done = done.push(l);
            }
            pos = end;
            at = at_end;
            line = end_line;
        }
    }
    assert(done + lexemes_from(chars@, pos as nat, line as nat) =~= done);
    tokens
}

/// Cuts a text into tokens.
///
/// The tokens are those of [`lexemes`]: whitespace is dropped, the longest
/// token is taken at each place, and each token holds its text as it
/// stands in the source and the lines, counted from zero, on which it
/// starts and ends.
pub fn tokenize(source: &str) -> (tokens: Vec<Token>)
    ensures
        describe_all(tokens@, lexemes(source@), source@),
{
    let chars = chars_of(source);
    tokenize_chars(source, &chars)
}

/// The characters of a string.
pub fn chars_of(s: &str) -> (v: Vec<char>)
    ensures
        v@ == s@,
{
    let mut v: Vec<char> = Vec::new();
    for c in it: s.chars()
        invariant
            it.seq() == s@,
            v@ == it.seq().take(it.index() as int),
    {
        v.push(c);
    }
    v
}

} // verus!
