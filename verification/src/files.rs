//! What a front end decides for each file it is given, and for the run as a
//! whole. Reading and writing the files is left to the front end.

use vstd::prelude::*;
use crate::lexer::{chars_of, describe_all, lexemes, tokenize};
use crate::parser::{derivation, error_places, parse, point_at, Shape, SyntaxError};
use crate::syntax::{ModelicaCST, SyntaxKind, Token};

verus! {

/// Where the final component of a path ends, within its first `n`
/// characters: separators at the end do not count, nor does a component `.`
/// at the end, nor a path that is `.` alone. Components are parted by `/`.
pub open spec fn component_end(path: Seq<char>, n: nat) -> nat
    decreases n,
{
    if n > path.len() {
        0
    } else if n >= 1 && path[n - 1] == '/' {
        component_end(path, (n - 1) as nat)
    } else if n >= 2 && path[n - 1] == '.' && path[n - 2] == '/' {
        component_end(path, (n - 2) as nat)
    } else if n == 1 && path[0] == '.' {
        0
    } else {
        n
    }
}

/// Whether a path names a Modelica file: the extension of its final
/// component is `mo`.
///
/// The final component is cut as the standard library cuts it where
/// components are parted by `/`: it ends at [`component_end`] and starts
/// behind the last separator in front of that. Its extension is what
/// follows its last dot, if anything stands in front of that dot. So the
/// component ends in `.mo` behind at least one other character.
pub open spec fn names_modelica(path: Seq<char>) -> bool {
    let e = component_end(path, path.len()) as int;
    &&& e >= 4
    &&& path[e - 3] == '.'
    &&& path[e - 2] == 'm'
    &&& path[e - 1] == 'o'
    &&& path[e - 4] != '/'
}

/// Returns `true` if the path names a Modelica file.
pub fn is_modelica(path: &str) -> (b: bool)
    ensures
        b == names_modelica(path@),
{
    let chars = chars_of(path);
    let mut e: usize = chars.len();
    loop
        invariant
            chars@ == path@,
            e <= chars@.len(),
            component_end(path@, path@.len()) == component_end(path@, e as nat),
        ensures
            component_end(path@, path@.len()) == e,
        decreases e,
    {
        if e >= 1 && chars[e - 1] == '/' {
            e = e - 1;
        } else if e >= 2 && chars[e - 1] == '.' && chars[e - 2] == '/' {
            e = e - 2;
        } else if e == 1 && chars[0] == '.' {
            e = 0;
        } else {
            break;
        }
    }
    e >= 4 && chars[e - 3] == '.' && chars[e - 2] == 'm' && chars[e - 1] == 'o' && chars[e - 4]
        != '/'
}

/// Parses a source text.
///
/// The text is cut into tokens and the tokens are parsed. The tree holds
/// the tokens of the text, each once and in order, and has the shape in
/// which they match the grammar; where they do not match, the errors name
/// the places.
pub fn parse_source(source: &str) -> (r: Result<ModelicaCST, Vec<SyntaxError>>)
    ensures
        match r {
            Ok(tree) => {
                &&& describe_all(tree.tokens(), lexemes(source@), source@)
                &&& derivation(tree.tokens()).found matches Some((children, _))
                    && tree.root.shape() == Shape::Branch(SyntaxKind::StoredDefinition, children)
            },
            Err(errors) => exists|tokens: Seq<Token>|
                {
                    &&& describe_all(tokens, lexemes(source@), source@)
                    &&& derivation(tokens).found is None
                    &&& #[trigger] point_at(errors@, tokens, error_places(tokens))
                },
        },
{
    let tokens = tokenize(source);
    parse(&tokens)
}

/// What is to be done with a file that was parsed.
#[derive(Debug)]
pub enum Action {
    /// In check mode: the file is formatted already; report that.
    CheckPassed,
    /// In check mode: the file is not formatted; report that.
    CheckFailed,
    /// Write this text to the file.
    Write(String),
}

/// Decides what is to be done with a file whose text `given` was parsed
/// into `tree`.
///
/// The file should hold the formatted text followed by the line terminator
/// `eol`. In check mode the file is compared with that, character by
/// character, and nothing is written; otherwise that is written.
pub fn judge(
    tree: &ModelicaCST,
    given: &str,
    line_length: Option<usize>,
    check: bool,
    eol: &str,
) -> (a: Action)
    ensures
        match a {
            Action::CheckPassed => check && given@ == tree.formatted(line_length) + eol@,
            Action::CheckFailed => check && given@ != tree.formatted(line_length) + eol@,
            Action::Write(text) => !check && text@ == tree.formatted(line_length) + eol@,
        },
{
    let mut output = match line_length {
        Some(n) => tree.pretty_print_with_line_length(n),
        None => tree.pretty_print(),
    };
    output.append(eol);
    if check {
        let text = String::from_str(given);
        if output == text {
            Action::CheckPassed
        } else {
            Action::CheckFailed
        }
    } else {
        Action::Write(output)
    }
}

/// How the work on one file ended.
#[derive(Clone, Copy, Debug, PartialEq, Eq, Structural)]
pub enum Outcome {
    /// The file or directory could not be read, or the file is no Modelica
    /// file.
    Unreadable,
    /// The text is no Modelica.
    SyntaxErrors,
    /// The file is not formatted.
    CheckFailed,
    /// The file is formatted already.
    CheckPassed,
    /// The formatted text was written.
    Written,
    /// The formatted text could not be written.
    Unwritable,
}

impl Outcome {
    /// Whether the outcome makes the run fail.
    pub open spec fn is_failure(self) -> bool {
        self == Outcome::Unreadable || self == Outcome::SyntaxErrors || self
            == Outcome::CheckFailed || self == Outcome::Unwritable
    }

    /// Executable form of [`Outcome::is_failure`].
    pub fn failed(self) -> (b: bool)
        ensures
            b == self.is_failure(),
    {
        self == Outcome::Unreadable || self == Outcome::SyntaxErrors || self
            == Outcome::CheckFailed || self == Outcome::Unwritable
    }
}

/// The exit status of a run: 1 if the work on any file failed, else 0.
pub fn exit_code(outcomes: &Vec<Outcome>) -> (code: i32)
    ensures
        code == if exists|i: int| 0 <= i < outcomes@.len() && (#[trigger] outcomes@[i]).is_failure() {
            1i32
        } else {
            0i32
        },
{
    let mut i: usize = 0;
    while i < outcomes.len()
        invariant
            i <= outcomes@.len(),
            forall|k: int| 0 <= k < i ==> !(#[trigger] outcomes@[k]).is_failure(),
        decreases outcomes@.len() - i,
    {
        if outcomes[i].failed() {
            return 1;
        }
        i = i + 1;
    }
    0
}

} // verus!
