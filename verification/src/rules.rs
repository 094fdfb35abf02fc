//! The layout policy: what separates two adjacent children of a node, which
//! children are indented, and which nodes form a group.
//!
//! The policy looks at syntax kinds only, never at the text of a token. Each
//! table exists as a specification and as an executable function that is
//! proved to agree with it.

use vstd::prelude::*;
use crate::syntax::SyntaxKind;

verus! {

/// What the policy puts between two adjacent children of a node.
#[derive(Clone, Copy, Debug, PartialEq, Eq, Structural)]
pub enum Sep {
    /// Nothing: the two tokens touch.
    Glue,
    /// One space.
    Space,
    /// A soft break.
    Soft,
    /// A hard break; empty lines of the source are dropped.
    Line,
    /// A hard break between members; one empty line of the source is kept.
    Member,
}

/// Tokens that attach to what stands before them.
pub open spec fn closes(k: SyntaxKind) -> bool
{
    match k {
        SyntaxKind::Comma
        | SyntaxKind::Semicolon
        | SyntaxKind::RParen
        | SyntaxKind::RBracket
        | SyntaxKind::RCurly => true,
        _ => false,
    }
}

/// Tokens to which the next token attaches.
pub open spec fn opens(k: SyntaxKind) -> bool
{
    match k {
        SyntaxKind::LParen | SyntaxKind::LBracket | SyntaxKind::LCurly => true,
        _ => false,
    }
}

/// Bracketed parts that attach to the name before them. `first` is the kind
/// of the first token of the part.
pub open spec fn attaches(right: SyntaxKind, first: SyntaxKind) -> bool
{
    match right {
        SyntaxKind::ArraySubscripts
        | SyntaxKind::FunctionCallArgs
        | SyntaxKind::ClassModification
        | SyntaxKind::ClassOrInheritanceModification => true,
        SyntaxKind::Modification => first == SyntaxKind::LParen,
        _ => false,
    }
}

/// The separator between two adjacent children of a node of kind `parent`.
///
/// `left` and `right` are the kinds of the two children, `first` is the kind
/// of the first token of the right child, and `lead` says that the left
/// child is the first child of the node. Brackets, commas and semicolons
/// attach in every node; a comma is followed by a soft break; apart from
/// that a kind without a rule of its own gets a single space.
#[verifier::opaque]
pub open spec fn separator(
    parent: SyntaxKind,
    left: SyntaxKind,
    right: SyntaxKind,
    first: SyntaxKind,
    lead: bool,
) -> Sep
{
    if parent == SyntaxKind::ErrorNode {
        Sep::Space
    } else if closes(first) || attaches(right, first) || opens(left) {
        Sep::Glue
    } else if left == SyntaxKind::Comma {
        Sep::Soft
    } else {
        match parent {
            SyntaxKind::Name
            | SyntaxKind::ComponentReference
            | SyntaxKind::TypeSpecifier
            | SyntaxKind::ResultReference => Sep::Glue,
            SyntaxKind::ImportClause => if left == SyntaxKind::Dot || first == SyntaxKind::Dot
                || first == SyntaxKind::DotStar {
                Sep::Glue
            } else {
                Sep::Space
            },
            SyntaxKind::ConnectEquation
            | SyntaxKind::DerClassSpecifier
            | SyntaxKind::ExternalFunctionCall
            | SyntaxKind::FunctionPartialApplication
            | SyntaxKind::ShortClassSpecifier => if first == SyntaxKind::LParen {
                Sep::Glue
            } else {
                Sep::Space
            },
            SyntaxKind::StoredDefinition
            | SyntaxKind::ElementList
            | SyntaxKind::EquationSection
            | SyntaxKind::AlgorithmSection => if left == SyntaxKind::Semicolon {
                Sep::Member
            } else if left == SyntaxKind::EquationKw || left == SyntaxKind::AlgorithmKw {
                Sep::Line
            } else {
                Sep::Space
            },
            SyntaxKind::Composition => if left == SyntaxKind::PublicKw || left
                == SyntaxKind::ProtectedKw {
                Sep::Line
            } else if left == SyntaxKind::ExternalKw || left == SyntaxKind::LanguageSpecification
                || left == SyntaxKind::ExternalFunctionCall {
                Sep::Space
            } else {
                Sep::Member
            },
            SyntaxKind::LongClassSpecifier => if right == SyntaxKind::DescriptionString {
                Sep::Line
            } else if right == SyntaxKind::Composition || right == SyntaxKind::EndKw {
                Sep::Member
            } else {
                Sep::Space
            },
            SyntaxKind::IfEquation
            | SyntaxKind::IfStatement
            | SyntaxKind::ForEquation
            | SyntaxKind::ForStatement
            | SyntaxKind::WhileStatement
            | SyntaxKind::WhenEquation
            | SyntaxKind::WhenStatement => if left == SyntaxKind::ThenKw || left
                == SyntaxKind::ElseKw || left == SyntaxKind::LoopKw {
                Sep::Line
            } else if left == SyntaxKind::Semicolon {
                if right == SyntaxKind::Equation || right == SyntaxKind::Statement {
                    Sep::Member
                } else {
                    Sep::Line
                }
            } else {
                Sep::Space
            },
            SyntaxKind::Equation | SyntaxKind::Statement | SyntaxKind::Modification => if left
                == SyntaxKind::Equal || left == SyntaxKind::Assign || right
                == SyntaxKind::Description {
                Sep::Soft
            } else {
                Sep::Space
            },
            SyntaxKind::ComponentDeclaration | SyntaxKind::ComponentDeclaration1 => if right
                == SyntaxKind::Description {
                Sep::Soft
            } else {
                Sep::Space
            },
            SyntaxKind::Expression => if left == SyntaxKind::ThenKw || left == SyntaxKind::ElseKw
                || right == SyntaxKind::ElseIfKw || right == SyntaxKind::ElseKw {
                Sep::Soft
            } else {
                Sep::Space
            },
            SyntaxKind::SimpleExpression => if left == SyntaxKind::Colon || first
                == SyntaxKind::Colon {
                Sep::Glue
            } else {
                Sep::Space
            },
            SyntaxKind::LogicalExpression => if right == SyntaxKind::OrKw {
                Sep::Soft
            } else {
                Sep::Space
            },
            SyntaxKind::LogicalTerm => if right == SyntaxKind::AndKw {
                Sep::Soft
            } else {
                Sep::Space
            },
            SyntaxKind::Relation => if right == SyntaxKind::RelationalOperator {
                Sep::Soft
            } else {
                Sep::Space
            },
            SyntaxKind::ArithmeticExpression => if right == SyntaxKind::AddOperator {
                Sep::Soft
            } else if left == SyntaxKind::AddOperator && lead {
                Sep::Glue
            } else {
                Sep::Space
            },
            SyntaxKind::Term => if right == SyntaxKind::MulOperator {
                Sep::Soft
            } else {
                Sep::Space
            },
            SyntaxKind::DescriptionString => if right == SyntaxKind::Plus {
                Sep::Soft
            } else {
                Sep::Space
            },
            SyntaxKind::Primary => if left == SyntaxKind::Semicolon {
                Sep::Soft
            } else {
                Sep::Space
            },
            _ => Sep::Space,
        }
    }
}

/// Whether a child of kind `child` belongs to the indented part of a node
/// of kind `parent`.
#[verifier::opaque]
pub open spec fn indented(parent: SyntaxKind, child: SyntaxKind) -> bool
{
    match parent {
        SyntaxKind::ElementList => true,
        SyntaxKind::EquationSection
        | SyntaxKind::AlgorithmSection
        | SyntaxKind::IfEquation
        | SyntaxKind::IfStatement
        | SyntaxKind::ForEquation
        | SyntaxKind::ForStatement
        | SyntaxKind::WhileStatement
        | SyntaxKind::WhenEquation
        | SyntaxKind::WhenStatement => child == SyntaxKind::Equation || child
            == SyntaxKind::Statement || child == SyntaxKind::Semicolon,
        SyntaxKind::LongClassSpecifier => child == SyntaxKind::DescriptionString,
        SyntaxKind::Composition => child == SyntaxKind::AnnotationClause,
        SyntaxKind::Equation | SyntaxKind::Statement => child == SyntaxKind::Expression || child
            == SyntaxKind::Description,
        SyntaxKind::Expression => child == SyntaxKind::Expression,
        SyntaxKind::Modification => child == SyntaxKind::ModificationExpression,
        SyntaxKind::ComponentClause => child == SyntaxKind::ComponentList,
        SyntaxKind::FunctionCallArgs => child == SyntaxKind::FunctionArguments,
        SyntaxKind::ClassModification => child == SyntaxKind::ArgumentList,
        SyntaxKind::ClassOrInheritanceModification => child
            == SyntaxKind::ArgumentOrInheritanceModificationList,
        SyntaxKind::ArraySubscripts => child == SyntaxKind::Subscript || child
            == SyntaxKind::Comma,
        SyntaxKind::ConnectEquation => child == SyntaxKind::ComponentReference || child
            == SyntaxKind::Comma,
        SyntaxKind::Primary => child == SyntaxKind::ArrayArguments || child
            == SyntaxKind::ExpressionList || child == SyntaxKind::OutputExpressionList || child
            == SyntaxKind::Semicolon,
        _ => false,
    }
}

/// Whether a node of this kind forms a group.
///
/// Every level of binary operators is a group of its own, so an inner
/// operand can stay on one line while the expression around it is broken at
/// its own, weaker operators.
#[verifier::opaque]
pub open spec fn grouped(kind: SyntaxKind) -> bool
{
    match kind {
        SyntaxKind::Equation
        | SyntaxKind::Statement
        | SyntaxKind::Modification
        | SyntaxKind::ComponentClause
        | SyntaxKind::Expression
        | SyntaxKind::LogicalExpression
        | SyntaxKind::LogicalTerm
        | SyntaxKind::Relation
        | SyntaxKind::ArithmeticExpression
        | SyntaxKind::Term
        | SyntaxKind::Primary
        | SyntaxKind::FunctionCallArgs
        | SyntaxKind::ClassModification
        | SyntaxKind::ClassOrInheritanceModification
        | SyntaxKind::ArraySubscripts
        | SyntaxKind::ConnectEquation
        | SyntaxKind::ExternalFunctionCall
        | SyntaxKind::DerClassSpecifier
        | SyntaxKind::ForIndices
        | SyntaxKind::EnumList
        | SyntaxKind::ImportList
        | SyntaxKind::DescriptionString => true,
        _ => false,
    }
}

/// Executable form of [`closes`].
pub fn is_closing(k: SyntaxKind) -> (b: bool)
    ensures
        b == closes(k),
{
    match k {
        SyntaxKind::Comma
        | SyntaxKind::Semicolon
        | SyntaxKind::RParen
        | SyntaxKind::RBracket
        | SyntaxKind::RCurly => true,
        _ => false,
    }
}

/// Executable form of [`opens`].
pub fn is_opening(k: SyntaxKind) -> (b: bool)
    ensures
        b == opens(k),
{
    match k {
        SyntaxKind::LParen | SyntaxKind::LBracket | SyntaxKind::LCurly => true,
        _ => false,
    }
}

/// Executable form of [`attaches`].
pub fn is_attached(right: SyntaxKind, first: SyntaxKind) -> (b: bool)
    ensures
        b == attaches(right, first),
{
    match right {
        SyntaxKind::ArraySubscripts
        | SyntaxKind::FunctionCallArgs
        | SyntaxKind::ClassModification
        | SyntaxKind::ClassOrInheritanceModification => true,
        SyntaxKind::Modification => first == SyntaxKind::LParen,
        _ => false,
    }
}

/// Executable form of [`separator`].
pub fn separator_of(
    parent: SyntaxKind,
    left: SyntaxKind,
    right: SyntaxKind,
    first: SyntaxKind,
    lead: bool,
) -> (s: Sep)
    ensures
        s == separator(parent, left, right, first, lead),
{
    proof {
        reveal(separator);
    }
    if parent == SyntaxKind::ErrorNode {
        Sep::Space
    } else if is_closing(first) || is_attached(right, first) || is_opening(left) {
        Sep::Glue
    } else if left == SyntaxKind::Comma {
        Sep::Soft
    } else {
        match parent {
            SyntaxKind::Name
            | SyntaxKind::ComponentReference
            | SyntaxKind::TypeSpecifier
            | SyntaxKind::ResultReference => Sep::Glue,
            SyntaxKind::ImportClause => if left == SyntaxKind::Dot || first == SyntaxKind::Dot
                || first == SyntaxKind::DotStar {
                Sep::Glue
            } else {
                Sep::Space
            },
            SyntaxKind::ConnectEquation
            | SyntaxKind::DerClassSpecifier
            | SyntaxKind::ExternalFunctionCall
            | SyntaxKind::FunctionPartialApplication
            | SyntaxKind::ShortClassSpecifier => if first == SyntaxKind::LParen {
                Sep::Glue
            } else {
                Sep::Space
            },
            SyntaxKind::StoredDefinition
            | SyntaxKind::ElementList
            | SyntaxKind::EquationSection
            | SyntaxKind::AlgorithmSection => if left == SyntaxKind::Semicolon {
                Sep::Member
            } else if left == SyntaxKind::EquationKw || left == SyntaxKind::AlgorithmKw {
                Sep::Line
            } else {
                Sep::Space
            },
            SyntaxKind::Composition => if left == SyntaxKind::PublicKw || left
                == SyntaxKind::ProtectedKw {
                Sep::Line
            } else if left == SyntaxKind::ExternalKw || left == SyntaxKind::LanguageSpecification
                || left == SyntaxKind::ExternalFunctionCall {
                Sep::Space
            } else {
                Sep::Member
            },
            SyntaxKind::LongClassSpecifier => if right == SyntaxKind::DescriptionString {
                Sep::Line
            } else if right == SyntaxKind::Composition || right == SyntaxKind::EndKw {
                Sep::Member
            } else {
                Sep::Space
            },
            SyntaxKind::IfEquation
            | SyntaxKind::IfStatement
            | SyntaxKind::ForEquation
            | SyntaxKind::ForStatement
            | SyntaxKind::WhileStatement
            | SyntaxKind::WhenEquation
            | SyntaxKind::WhenStatement => if left == SyntaxKind::ThenKw || left
                == SyntaxKind::ElseKw || left == SyntaxKind::LoopKw {
                Sep::Line
            } else if left == SyntaxKind::Semicolon {
                if right == SyntaxKind::Equation || right == SyntaxKind::Statement {
                    Sep::Member
                } else {
                    Sep::Line
                }
            } else {
                Sep::Space
            },
            SyntaxKind::Equation | SyntaxKind::Statement | SyntaxKind::Modification => if left
                == SyntaxKind::Equal || left == SyntaxKind::Assign || right
                == SyntaxKind::Description {
                Sep::Soft
            } else {
                Sep::Space
            },
            SyntaxKind::ComponentDeclaration | SyntaxKind::ComponentDeclaration1 => if right
                == SyntaxKind::Description {
                Sep::Soft
            } else {
                Sep::Space
            },
            SyntaxKind::Expression => if left == SyntaxKind::ThenKw || left == SyntaxKind::ElseKw
                || right == SyntaxKind::ElseIfKw || right == SyntaxKind::ElseKw {
                Sep::Soft
            } else {
                Sep::Space
            },
            SyntaxKind::SimpleExpression => if left == SyntaxKind::Colon || first
                == SyntaxKind::Colon {
                Sep::Glue
            } else {
                Sep::Space
            },
            SyntaxKind::LogicalExpression => if right == SyntaxKind::OrKw {
                Sep::Soft
            } else {
                Sep::Space
            },
            SyntaxKind::LogicalTerm => if right == SyntaxKind::AndKw {
                Sep::Soft
            } else {
                Sep::Space
            },
            SyntaxKind::Relation => if right == SyntaxKind::RelationalOperator {
                Sep::Soft
            } else {
                Sep::Space
            },
            SyntaxKind::ArithmeticExpression => if right == SyntaxKind::AddOperator {
                Sep::Soft
            } else if left == SyntaxKind::AddOperator && lead {
                Sep::Glue
            } else {
                Sep::Space
            },
            SyntaxKind::Term => if right == SyntaxKind::MulOperator {
                Sep::Soft
            } else {
                Sep::Space
            },
            SyntaxKind::DescriptionString => if right == SyntaxKind::Plus {
                Sep::Soft
            } else {
                Sep::Space
            },
            SyntaxKind::Primary => if left == SyntaxKind::Semicolon {
                Sep::Soft
            } else {
                Sep::Space
            },
            _ => Sep::Space,
        }
    }
}

/// Executable form of [`indented`].
pub fn is_indented(parent: SyntaxKind, child: SyntaxKind) -> (b: bool)
    ensures
        b == indented(parent, child),
{
    proof {
        reveal(indented);
    }
    match parent {
        SyntaxKind::ElementList => true,
        SyntaxKind::EquationSection
        | SyntaxKind::AlgorithmSection
        | SyntaxKind::IfEquation
        | SyntaxKind::IfStatement
        | SyntaxKind::ForEquation
        | SyntaxKind::ForStatement
        | SyntaxKind::WhileStatement
        | SyntaxKind::WhenEquation
        | SyntaxKind::WhenStatement => child == SyntaxKind::Equation || child
            == SyntaxKind::Statement || child == SyntaxKind::Semicolon,
        SyntaxKind::LongClassSpecifier => child == SyntaxKind::DescriptionString,
        SyntaxKind::Composition => child == SyntaxKind::AnnotationClause,
        SyntaxKind::Equation | SyntaxKind::Statement => child == SyntaxKind::Expression || child
            == SyntaxKind::Description,
        SyntaxKind::Expression => child == SyntaxKind::Expression,
        SyntaxKind::Modification => child == SyntaxKind::ModificationExpression,
        SyntaxKind::ComponentClause => child == SyntaxKind::ComponentList,
        SyntaxKind::FunctionCallArgs => child == SyntaxKind::FunctionArguments,
        SyntaxKind::ClassModification => child == SyntaxKind::ArgumentList,
        SyntaxKind::ClassOrInheritanceModification => child
            == SyntaxKind::ArgumentOrInheritanceModificationList,
        SyntaxKind::ArraySubscripts => child == SyntaxKind::Subscript || child
            == SyntaxKind::Comma,
        SyntaxKind::ConnectEquation => child == SyntaxKind::ComponentReference || child
            == SyntaxKind::Comma,
        SyntaxKind::Primary => child == SyntaxKind::ArrayArguments || child
            == SyntaxKind::ExpressionList || child == SyntaxKind::OutputExpressionList || child
            == SyntaxKind::Semicolon,
        _ => false,
    }
}

/// Executable form of [`grouped`].
pub fn is_grouped(kind: SyntaxKind) -> (b: bool)
    ensures
        b == grouped(kind),
{
    proof {
        reveal(grouped);
    }
    match kind {
        SyntaxKind::Equation
        | SyntaxKind::Statement
        | SyntaxKind::Modification
        | SyntaxKind::ComponentClause
        | SyntaxKind::Expression
        | SyntaxKind::LogicalExpression
        | SyntaxKind::LogicalTerm
        | SyntaxKind::Relation
        | SyntaxKind::ArithmeticExpression
        | SyntaxKind::Term
        | SyntaxKind::Primary
        | SyntaxKind::FunctionCallArgs
        | SyntaxKind::ClassModification
        | SyntaxKind::ClassOrInheritanceModification
        | SyntaxKind::ArraySubscripts
        | SyntaxKind::ConnectEquation
        | SyntaxKind::ExternalFunctionCall
        | SyntaxKind::DerClassSpecifier
        | SyntaxKind::ForIndices
        | SyntaxKind::EnumList
        | SyntaxKind::ImportList
        | SyntaxKind::DescriptionString => true,
        _ => false,
    }
}

/// Kinds of words: the keywords and identifiers.
pub open spec fn wordish(k: SyntaxKind) -> bool
{
    match k {
        SyntaxKind::AlgorithmKw
        | SyntaxKind::AndKw
        | SyntaxKind::AnnotationKw
        | SyntaxKind::BlockKw
        | SyntaxKind::BreakKw
        | SyntaxKind::ClassKw
        | SyntaxKind::ConnectKw
        | SyntaxKind::ConnectorKw
        | SyntaxKind::ConstantKw
        | SyntaxKind::ConstrainedbyKw
        | SyntaxKind::DerKw
        | SyntaxKind::DiscreteKw
        | SyntaxKind::EachKw
        | SyntaxKind::ElseKw
        | SyntaxKind::ElseIfKw
        | SyntaxKind::ElseWhenKw
        | SyntaxKind::EncapsulatedKw
        | SyntaxKind::EndKw
        | SyntaxKind::EnumerationKw
        | SyntaxKind::EquationKw
        | SyntaxKind::ExpandableKw
        | SyntaxKind::ExtendsKw
        | SyntaxKind::ExternalKw
        | SyntaxKind::FalseKw
        | SyntaxKind::FinalKw
        | SyntaxKind::FlowKw
        | SyntaxKind::ForKw
        | SyntaxKind::FunctionKw
        | SyntaxKind::IfKw
        | SyntaxKind::ImportKw
        | SyntaxKind::ImpureKw
        | SyntaxKind::InKw
        | SyntaxKind::InitialKw
        | SyntaxKind::InnerKw
        | SyntaxKind::InputKw
        | SyntaxKind::LoopKw
        | SyntaxKind::ModelKw
        | SyntaxKind::NotKw
        | SyntaxKind::OperatorKw
        | SyntaxKind::OrKw
        | SyntaxKind::OuterKw
        | SyntaxKind::OutputKw
        | SyntaxKind::PackageKw
        | SyntaxKind::ParameterKw
        | SyntaxKind::PartialKw
        | SyntaxKind::ProtectedKw
        | SyntaxKind::PublicKw
        | SyntaxKind::PureKw
        | SyntaxKind::RecordKw
        | SyntaxKind::RedeclareKw
        | SyntaxKind::ReplaceableKw
        | SyntaxKind::ReturnKw
        | SyntaxKind::StreamKw
        | SyntaxKind::ThenKw
        | SyntaxKind::TrueKw
        | SyntaxKind::TypeKw
        | SyntaxKind::WhenKw
        | SyntaxKind::WhileKw
        | SyntaxKind::WithinKw
        | SyntaxKind::Ident => true,
        _ => false,
    }
}

/// Kinds of tokens that end where they end, whatever follows them.
pub open spec fn sealed(k: SyntaxKind) -> bool
{
    match k {
        SyntaxKind::LParen
        | SyntaxKind::RParen
        | SyntaxKind::LBracket
        | SyntaxKind::RBracket
        | SyntaxKind::LCurly
        | SyntaxKind::RCurly
        | SyntaxKind::Comma
        | SyntaxKind::Semicolon
        | SyntaxKind::Plus
        | SyntaxKind::Minus
        | SyntaxKind::Star
        | SyntaxKind::Flex
        | SyntaxKind::DotPlus
        | SyntaxKind::DotMinus
        | SyntaxKind::DotStar
        | SyntaxKind::DotSlash
        | SyntaxKind::DotFlex
        | SyntaxKind::LessEqual
        | SyntaxKind::NotEqual
        | SyntaxKind::GreaterEqual
        | SyntaxKind::EqualEqual
        | SyntaxKind::Assign
        | SyntaxKind::StringLiteral
        | SyntaxKind::BlockComment => true,
        _ => false,
    }
}

/// Kinds of tokens that no token in front of them runs into: brackets,
/// commas, semicolons and colons.
pub open spec fn inert_first(k: SyntaxKind) -> bool
{
    match k {
        SyntaxKind::LParen
        | SyntaxKind::RParen
        | SyntaxKind::LBracket
        | SyntaxKind::RBracket
        | SyntaxKind::LCurly
        | SyntaxKind::RCurly
        | SyntaxKind::Comma
        | SyntaxKind::Semicolon
        | SyntaxKind::Colon => true,
        _ => false,
    }
}

/// Kinds of tokens that start with a dot.
pub open spec fn dotted(k: SyntaxKind) -> bool
{
    match k {
        SyntaxKind::Dot
        | SyntaxKind::DotPlus
        | SyntaxKind::DotMinus
        | SyntaxKind::DotStar
        | SyntaxKind::DotSlash
        | SyntaxKind::DotFlex => true,
        _ => false,
    }
}

/// Whether a token of kind `right` may touch a token of kind `left` in
/// front of it: the two are still read as the same two tokens when nothing
/// stands between them.
pub open spec fn joins(left: SyntaxKind, right: SyntaxKind) -> bool
{
    left != SyntaxKind::LineComment && (sealed(left) || inert_first(right) || (wordish(left)
        && dotted(right)) || (left == SyntaxKind::Dot && wordish(right)) || (left
        == SyntaxKind::Colon && sealed(right) && right != SyntaxKind::EqualEqual) || (left == SyntaxKind::Colon && wordish(right))
        || (left == SyntaxKind::Colon && (right == SyntaxKind::UnsignedInteger || right
        == SyntaxKind::UnsignedReal)))
}

/// Executable form of [`wordish`].
pub fn is_wordish(k: SyntaxKind) -> (b: bool)
    ensures
        b == wordish(k),
{
    match k {
        SyntaxKind::AlgorithmKw
        | SyntaxKind::AndKw
        | SyntaxKind::AnnotationKw
        | SyntaxKind::BlockKw
        | SyntaxKind::BreakKw
        | SyntaxKind::ClassKw
        | SyntaxKind::ConnectKw
        | SyntaxKind::ConnectorKw
        | SyntaxKind::ConstantKw
        | SyntaxKind::ConstrainedbyKw
        | SyntaxKind::DerKw
        | SyntaxKind::DiscreteKw
        | SyntaxKind::EachKw
        | SyntaxKind::ElseKw
        | SyntaxKind::ElseIfKw
        | SyntaxKind::ElseWhenKw
        | SyntaxKind::EncapsulatedKw
        | SyntaxKind::EndKw
        | SyntaxKind::EnumerationKw
        | SyntaxKind::EquationKw
        | SyntaxKind::ExpandableKw
        | SyntaxKind::ExtendsKw
        | SyntaxKind::ExternalKw
        | SyntaxKind::FalseKw
        | SyntaxKind::FinalKw
        | SyntaxKind::FlowKw
        | SyntaxKind::ForKw
        | SyntaxKind::FunctionKw
        | SyntaxKind::IfKw
        | SyntaxKind::ImportKw
        | SyntaxKind::ImpureKw
        | SyntaxKind::InKw
        | SyntaxKind::InitialKw
        | SyntaxKind::InnerKw
        | SyntaxKind::InputKw
        | SyntaxKind::LoopKw
        | SyntaxKind::ModelKw
        | SyntaxKind::NotKw
        | SyntaxKind::OperatorKw
        | SyntaxKind::OrKw
        | SyntaxKind::OuterKw
        | SyntaxKind::OutputKw
        | SyntaxKind::PackageKw
        | SyntaxKind::ParameterKw
        | SyntaxKind::PartialKw
        | SyntaxKind::ProtectedKw
        | SyntaxKind::PublicKw
        | SyntaxKind::PureKw
        | SyntaxKind::RecordKw
        | SyntaxKind::RedeclareKw
        | SyntaxKind::ReplaceableKw
        | SyntaxKind::ReturnKw
        | SyntaxKind::StreamKw
        | SyntaxKind::ThenKw
        | SyntaxKind::TrueKw
        | SyntaxKind::TypeKw
        | SyntaxKind::WhenKw
        | SyntaxKind::WhileKw
        | SyntaxKind::WithinKw
        | SyntaxKind::Ident => true,
        _ => false,
    }
}

/// Executable form of [`sealed`].
pub fn is_sealed(k: SyntaxKind) -> (b: bool)
    ensures
        b == sealed(k),
{
    match k {
        SyntaxKind::LParen
        | SyntaxKind::RParen
        | SyntaxKind::LBracket
        | SyntaxKind::RBracket
        | SyntaxKind::LCurly
        | SyntaxKind::RCurly
        | SyntaxKind::Comma
        | SyntaxKind::Semicolon
        | SyntaxKind::Plus
        | SyntaxKind::Minus
        | SyntaxKind::Star
        | SyntaxKind::Flex
        | SyntaxKind::DotPlus
        | SyntaxKind::DotMinus
        | SyntaxKind::DotStar
        | SyntaxKind::DotSlash
        | SyntaxKind::DotFlex
        | SyntaxKind::LessEqual
        | SyntaxKind::NotEqual
        | SyntaxKind::GreaterEqual
        | SyntaxKind::EqualEqual
        | SyntaxKind::Assign
        | SyntaxKind::StringLiteral
        | SyntaxKind::BlockComment => true,
        _ => false,
    }
}

/// Executable form of [`inert_first`].
pub fn is_inert_first(k: SyntaxKind) -> (b: bool)
    ensures
        b == inert_first(k),
{
    match k {
        SyntaxKind::LParen
        | SyntaxKind::RParen
        | SyntaxKind::LBracket
        | SyntaxKind::RBracket
        | SyntaxKind::LCurly
        | SyntaxKind::RCurly
        | SyntaxKind::Comma
        | SyntaxKind::Semicolon
        | SyntaxKind::Colon => true,
        _ => false,
    }
}

/// Executable form of [`dotted`].
pub fn is_dotted(k: SyntaxKind) -> (b: bool)
    ensures
        b == dotted(k),
{
    match k {
        SyntaxKind::Dot
        | SyntaxKind::DotPlus
        | SyntaxKind::DotMinus
        | SyntaxKind::DotStar
        | SyntaxKind::DotSlash
        | SyntaxKind::DotFlex => true,
        _ => false,
    }
}

/// Executable form of [`joins`].
pub fn does_join(left: SyntaxKind, right: SyntaxKind) -> (b: bool)
    ensures
        b == joins(left, right),
{
    left != SyntaxKind::LineComment && (is_sealed(left) || is_inert_first(right) || (is_wordish(left)
        && is_dotted(right)) || (left == SyntaxKind::Dot && is_wordish(right)) || (left
        == SyntaxKind::Colon && is_sealed(right) && right != SyntaxKind::EqualEqual) || (left == SyntaxKind::Colon && is_wordish(right))
        || (left == SyntaxKind::Colon && (right == SyntaxKind::UnsignedInteger || right
        == SyntaxKind::UnsignedReal)))
}

} // verus!
