//! The grammar of Modelica as the parser reads it: one production for each
//! kind of node.

use vstd::prelude::*;
use crate::syntax::SyntaxKind;
use crate::syntax::SyntaxKind as K;

verus! {

/// A pattern of the grammar.
pub enum Rule {
    /// Nothing.
    Empty,
    /// The end of the text.
    End,
    /// One token of the kind.
    Token(SyntaxKind),
    /// A node of the kind, made by the production of the kind.
    Node(SyntaxKind),
    /// The first pattern, then the second.
    Then(Box<Rule>, Box<Rule>),
    /// The first pattern; the second where the first does not match.
    Or(Box<Rule>, Box<Rule>),
    /// The pattern, or nothing where it does not match.
    Opt(Box<Rule>),
    /// The pattern as often as it matches.
    Star(Box<Rule>),
}

/// One token of the kind.
#[verifier::allow_in_spec]
pub fn tok(kind: SyntaxKind) -> Rule
    returns
        Rule::Token(kind),
{
    Rule::Token(kind)
}

/// A node of the kind.
#[verifier::allow_in_spec]
pub fn node(kind: SyntaxKind) -> Rule
    returns
        Rule::Node(kind),
{
    Rule::Node(kind)
}

/// `a`, then `b`.
#[verifier::allow_in_spec]
pub fn both(a: Rule, b: Rule) -> Rule
    returns
        Rule::Then(Box::new(a), Box::new(b)),
{
    Rule::Then(Box::new(a), Box::new(b))
}

/// `a`, then `b`, then `c`.
#[verifier::allow_in_spec]
pub fn both3(a: Rule, b: Rule, c: Rule) -> Rule
    returns
        both(a, both(b, c)),
{
    both(a, both(b, c))
}

/// `a`, then `b`, then `c`, then `d`.
#[verifier::allow_in_spec]
pub fn both4(a: Rule, b: Rule, c: Rule, d: Rule) -> Rule
    returns
        both(a, both3(b, c, d)),
{
    both(a, both3(b, c, d))
}

/// `a`, or `b` where `a` does not match.
#[verifier::allow_in_spec]
pub fn either(a: Rule, b: Rule) -> Rule
    returns
        Rule::Or(Box::new(a), Box::new(b)),
{
    Rule::Or(Box::new(a), Box::new(b))
}

/// The first of `a`, `b` and `c` that matches.
#[verifier::allow_in_spec]
pub fn either3(a: Rule, b: Rule, c: Rule) -> Rule
    returns
        either(a, either(b, c)),
{
    either(a, either(b, c))
}

/// The first of `a`, `b`, `c` and `d` that matches.
#[verifier::allow_in_spec]
pub fn either4(a: Rule, b: Rule, c: Rule, d: Rule) -> Rule
    returns
        either(a, either3(b, c, d)),
{
    either(a, either3(b, c, d))
}

/// `a`, or nothing.
#[verifier::allow_in_spec]
pub fn maybe(a: Rule) -> Rule
    returns
        Rule::Opt(Box::new(a)),
{
    Rule::Opt(Box::new(a))
}

/// `a` as often as it matches.
#[verifier::allow_in_spec]
pub fn many(a: Rule) -> Rule
    returns
        Rule::Star(Box::new(a)),
{
    Rule::Star(Box::new(a))
}

/// The production of a kind of node: the pattern that the children of such
/// a node match. A kind of token stands for itself.
///
/// The choices are ordered: of two alternatives that match, the first is
/// taken, and a repetition takes all it can.
#[verifier::opaque]
pub open spec fn production(kind: SyntaxKind) -> Rule
{
    match kind {
        K::StoredDefinition => both(
            maybe(both3(tok(K::WithinKw), maybe(node(K::Name)), tok(K::Semicolon))),
            many(both3(maybe(tok(K::FinalKw)), node(K::ClassDefinition), tok(K::Semicolon))),
        ),
        K::ClassDefinition => both3(
            maybe(tok(K::EncapsulatedKw)),
            node(K::ClassPrefixes),
            node(K::ClassSpecifier),
        ),
        K::ClassPrefixes => both(
            maybe(tok(K::PartialKw)),
            either4(
                tok(K::ClassKw),
                tok(K::ModelKw),
                both(maybe(tok(K::OperatorKw)), tok(K::RecordKw)),
                either4(
                    tok(K::BlockKw),
                    both(maybe(tok(K::ExpandableKw)), tok(K::ConnectorKw)),
                    tok(K::TypeKw),
                    either3(
                        tok(K::PackageKw),
                        both3(
                            maybe(either(tok(K::PureKw), tok(K::ImpureKw))),
                            maybe(tok(K::OperatorKw)),
                            tok(K::FunctionKw),
                        ),
                        tok(K::OperatorKw),
                    ),
                ),
            ),
        ),
        K::ClassSpecifier => either3(
            node(K::DerClassSpecifier),
            node(K::ShortClassSpecifier),
            node(K::LongClassSpecifier),
        ),
        K::LongClassSpecifier => either(
            both4(
                tok(K::Ident),
                node(K::DescriptionString),
                node(K::Composition),
                both(tok(K::EndKw), tok(K::Ident)),
            ),
            both4(
                tok(K::ExtendsKw),
                tok(K::Ident),
                maybe(node(K::ClassModification)),
                both4(
                    node(K::DescriptionString),
                    node(K::Composition),
                    tok(K::EndKw),
                    tok(K::Ident),
                ),
            ),
        ),
        K::ShortClassSpecifier => either(
            both4(
                tok(K::Ident),
                tok(K::Equal),
                tok(K::EnumerationKw),
                both4(
                    tok(K::LParen),
                    maybe(either(node(K::EnumList), tok(K::Colon))),
                    tok(K::RParen),
                    node(K::Description),
                ),
            ),
            both4(
                tok(K::Ident),
                tok(K::Equal),
                node(K::BasePrefix),
                both4(
                    node(K::TypeSpecifier),
                    maybe(node(K::ArraySubscripts)),
                    maybe(node(K::ClassModification)),
                    node(K::Description),
                ),
            ),
        ),
        K::DerClassSpecifier => both4(
            tok(K::Ident),
            tok(K::Equal),
            tok(K::DerKw),
            both4(
                tok(K::LParen),
                node(K::TypeSpecifier),
                tok(K::Comma),
                both4(
                    tok(K::Ident),
                    many(both(tok(K::Comma), tok(K::Ident))),
                    tok(K::RParen),
                    node(K::Description),
                ),
            ),
        ),
        K::BasePrefix => maybe(either(tok(K::InputKw), tok(K::OutputKw))),
        K::EnumList => both(
            node(K::EnumerationLiteral),
            many(both(tok(K::Comma), node(K::EnumerationLiteral))),
        ),
        K::EnumerationLiteral => both(tok(K::Ident), node(K::Description)),
        K::Composition => both4(
            node(K::ElementList),
            many(
                either4(
                    both(tok(K::PublicKw), node(K::ElementList)),
                    both(tok(K::ProtectedKw), node(K::ElementList)),
                    node(K::EquationSection),
                    node(K::AlgorithmSection),
                ),
            ),
            maybe(
                both4(
                    tok(K::ExternalKw),
                    maybe(node(K::LanguageSpecification)),
                    maybe(node(K::ExternalFunctionCall)),
                    both(maybe(node(K::AnnotationClause)), tok(K::Semicolon)),
                ),
            ),
            maybe(both(node(K::AnnotationClause), tok(K::Semicolon))),
        ),
        K::LanguageSpecification => tok(K::StringLiteral),
        K::ExternalFunctionCall => both4(
            maybe(both(node(K::ComponentReference), tok(K::Equal))),
            tok(K::Ident),
            tok(K::LParen),
            both(maybe(node(K::ExpressionList)), tok(K::RParen)),
        ),
        K::ElementList => many(both(node(K::Element), tok(K::Semicolon))),
        K::Element => either3(
            node(K::ImportClause),
            node(K::ExtendsClause),
            both4(
                maybe(tok(K::RedeclareKw)),
                maybe(tok(K::FinalKw)),
                maybe(tok(K::InnerKw)),
                both(
                    maybe(tok(K::OuterKw)),
                    either3(
                        both3(
                            tok(K::ReplaceableKw),
                            either(node(K::ClassDefinition), node(K::ComponentClause)),
                            maybe(both(node(K::ConstrainingClause), node(K::Description))),
                        ),
                        node(K::ClassDefinition),
                        node(K::ComponentClause),
                    ),
                ),
            ),
        ),
        K::ImportClause => both3(
            tok(K::ImportKw),
            either(
                both3(tok(K::Ident), tok(K::Equal), node(K::Name)),
                both(
                    node(K::Name),
                    maybe(
                        either(
                            tok(K::DotStar),
                            both(
                                tok(K::Dot),
                                either(
                                    tok(K::Star),
                                    both3(tok(K::LCurly), node(K::ImportList), tok(K::RCurly)),
                                ),
                            ),
                        ),
                    ),
                ),
            ),
            node(K::Description),
        ),
        K::ImportList => both(tok(K::Ident), many(both(tok(K::Comma), tok(K::Ident)))),
        K::ExtendsClause => both4(
            tok(K::ExtendsKw),
            node(K::TypeSpecifier),
            maybe(node(K::ClassOrInheritanceModification)),
            maybe(node(K::AnnotationClause)),
        ),
        K::ConstrainingClause => both3(
            tok(K::ConstrainedbyKw),
            node(K::TypeSpecifier),
            maybe(node(K::ClassModification)),
        ),
        K::ClassOrInheritanceModification => both3(
            tok(K::LParen),
            maybe(node(K::ArgumentOrInheritanceModificationList)),
            tok(K::RParen),
        ),
        K::ArgumentOrInheritanceModificationList => both(
            either(node(K::Argument), node(K::InheritanceModification)),
            many(
                both(
                    tok(K::Comma),
                    either(node(K::Argument), node(K::InheritanceModification)),
                ),
            ),
        ),
        K::InheritanceModification => both(
            tok(K::BreakKw),
            either(node(K::ConnectEquation), tok(K::Ident)),
        ),
        K::ComponentClause => both4(
            node(K::TypePrefix),
            node(K::TypeSpecifier),
            maybe(node(K::ArraySubscripts)),
            node(K::ComponentList),
        ),
        K::TypePrefix => both3(
            maybe(either(tok(K::FlowKw), tok(K::StreamKw))),
            maybe(either3(tok(K::DiscreteKw), tok(K::ParameterKw), tok(K::ConstantKw))),
            maybe(either(tok(K::InputKw), tok(K::OutputKw))),
        ),
        K::ComponentList => both(
            node(K::ComponentDeclaration),
            many(both(tok(K::Comma), node(K::ComponentDeclaration))),
        ),
        K::ComponentDeclaration => both3(
            node(K::Declaration),
            maybe(node(K::ConditionAttribute)),
            node(K::Description),
        ),
        K::ConditionAttribute => both(tok(K::IfKw), node(K::Expression)),
        K::Declaration => both3(
            tok(K::Ident),
            maybe(node(K::ArraySubscripts)),
            maybe(node(K::Modification)),
        ),
        K::Modification => either3(
            both(
                node(K::ClassModification),
                maybe(both(tok(K::Equal), node(K::ModificationExpression))),
            ),
            both(tok(K::Equal), node(K::ModificationExpression)),
            both(tok(K::Assign), node(K::ModificationExpression)),
        ),
        K::ModificationExpression => either(node(K::Expression), tok(K::BreakKw)),
        K::ClassModification => both3(
            tok(K::LParen),
            maybe(node(K::ArgumentList)),
            tok(K::RParen),
        ),
        K::ArgumentList => both(node(K::Argument), many(both(tok(K::Comma), node(K::Argument)))),
        K::Argument => either(
            node(K::ElementRedeclaration),
            node(K::ElementModificationOrReplaceable),
        ),
        K::ElementModificationOrReplaceable => both3(
            maybe(tok(K::EachKw)),
            maybe(tok(K::FinalKw)),
            either(node(K::ElementModification), node(K::ElementReplaceable)),
        ),
        K::ElementModification => both3(
            node(K::Name),
            maybe(node(K::Modification)),
            node(K::DescriptionString),
        ),
        K::ElementRedeclaration => both4(
            tok(K::RedeclareKw),
            maybe(tok(K::EachKw)),
            maybe(tok(K::FinalKw)),
            either3(
                node(K::ShortClassDefinition),
                node(K::ComponentClause1),
                node(K::ElementReplaceable),
            ),
        ),
        K::ElementReplaceable => both3(
            tok(K::ReplaceableKw),
            either(node(K::ShortClassDefinition), node(K::ComponentClause1)),
            maybe(node(K::ConstrainingClause)),
        ),
        K::ComponentClause1 => both3(
            node(K::TypePrefix),
            node(K::TypeSpecifier),
            node(K::ComponentDeclaration1),
        ),
        K::ComponentDeclaration1 => both(node(K::Declaration), node(K::Description)),
        K::ShortClassDefinition => both(node(K::ClassPrefixes), node(K::ShortClassSpecifier)),
        K::EquationSection => both3(
            maybe(tok(K::InitialKw)),
            tok(K::EquationKw),
            many(both(node(K::Equation), tok(K::Semicolon))),
        ),
        K::AlgorithmSection => both3(
            maybe(tok(K::InitialKw)),
            tok(K::AlgorithmKw),
            many(both(node(K::Statement), tok(K::Semicolon))),
        ),
        K::Equation => both(
            either4(
                node(K::IfEquation),
                node(K::ForEquation),
                node(K::ConnectEquation),
                either3(
                    node(K::WhenEquation),
                    both3(node(K::SimpleExpression), tok(K::Equal), node(K::Expression)),
                    both(node(K::ComponentReference), node(K::FunctionCallArgs)),
                ),
            ),
            node(K::Description),
        ),
        K::Statement => both(
            either4(
                node(K::IfStatement),
                node(K::ForStatement),
                node(K::WhileStatement),
                either4(
                    node(K::WhenStatement),
                    tok(K::BreakKw),
                    tok(K::ReturnKw),
                    either(
                        both4(
                            tok(K::LParen),
                            node(K::OutputExpressionList),
                            tok(K::RParen),
                            both3(
                                tok(K::Assign),
                                node(K::ComponentReference),
                                node(K::FunctionCallArgs),
                            ),
                        ),
                        both(
                            node(K::ComponentReference),
                            either(
                                both(tok(K::Assign), node(K::Expression)),
                                node(K::FunctionCallArgs),
                            ),
                        ),
                    ),
                ),
            ),
            node(K::Description),
        ),
        K::IfEquation => both4(
            tok(K::IfKw),
            node(K::Expression),
            tok(K::ThenKw),
            both4(
                many(both(node(K::Equation), tok(K::Semicolon))),
                many(
                    both4(
                        tok(K::ElseIfKw),
                        node(K::Expression),
                        tok(K::ThenKw),
                        many(both(node(K::Equation), tok(K::Semicolon))),
                    ),
                ),
                maybe(both(tok(K::ElseKw), many(both(node(K::Equation), tok(K::Semicolon))))),
                both(tok(K::EndKw), tok(K::IfKw)),
            ),
        ),
        K::IfStatement => both4(
            tok(K::IfKw),
            node(K::Expression),
            tok(K::ThenKw),
            both4(
                many(both(node(K::Statement), tok(K::Semicolon))),
                many(
                    both4(
                        tok(K::ElseIfKw),
                        node(K::Expression),
                        tok(K::ThenKw),
                        many(both(node(K::Statement), tok(K::Semicolon))),
                    ),
                ),
                maybe(both(tok(K::ElseKw), many(both(node(K::Statement), tok(K::Semicolon))))),
                both(tok(K::EndKw), tok(K::IfKw)),
            ),
        ),
        K::ForEquation => both4(
            tok(K::ForKw),
            node(K::ForIndices),
            tok(K::LoopKw),
            both3(
                many(both(node(K::Equation), tok(K::Semicolon))),
                tok(K::EndKw),
                tok(K::ForKw),
            ),
        ),
        K::ForStatement => both4(
            tok(K::ForKw),
            node(K::ForIndices),
            tok(K::LoopKw),
            both3(
                many(both(node(K::Statement), tok(K::Semicolon))),
                tok(K::EndKw),
                tok(K::ForKw),
            ),
        ),
        K::ForIndices => both(node(K::ForIndex), many(both(tok(K::Comma), node(K::ForIndex)))),
        K::ForIndex => both(tok(K::Ident), maybe(both(tok(K::InKw), node(K::Expression)))),
        K::WhileStatement => both4(
            tok(K::WhileKw),
            node(K::Expression),
            tok(K::LoopKw),
            both3(
                many(both(node(K::Statement), tok(K::Semicolon))),
                tok(K::EndKw),
                tok(K::WhileKw),
            ),
        ),
        K::WhenEquation => both4(
            tok(K::WhenKw),
            node(K::Expression),
            tok(K::ThenKw),
            both4(
                many(both(node(K::Equation), tok(K::Semicolon))),
                many(
                    both4(
                        tok(K::ElseWhenKw),
                        node(K::Expression),
                        tok(K::ThenKw),
                        many(both(node(K::Equation), tok(K::Semicolon))),
                    ),
                ),
                tok(K::EndKw),
                tok(K::WhenKw),
            ),
        ),
        K::WhenStatement => both4(
            tok(K::WhenKw),
            node(K::Expression),
            tok(K::ThenKw),
            both4(
                many(both(node(K::Statement), tok(K::Semicolon))),
                many(
                    both4(
                        tok(K::ElseWhenKw),
                        node(K::Expression),
                        tok(K::ThenKw),
                        many(both(node(K::Statement), tok(K::Semicolon))),
                    ),
                ),
                tok(K::EndKw),
                tok(K::WhenKw),
            ),
        ),
        K::ConnectEquation => both4(
            tok(K::ConnectKw),
            tok(K::LParen),
            node(K::ComponentReference),
            both3(tok(K::Comma), node(K::ComponentReference), tok(K::RParen)),
        ),
        K::Expression => either(
            both4(
                tok(K::IfKw),
                node(K::Expression),
                tok(K::ThenKw),
                both4(
                    node(K::Expression),
                    many(
                        both4(
                            tok(K::ElseIfKw),
                            node(K::Expression),
                            tok(K::ThenKw),
                            node(K::Expression),
                        ),
                    ),
                    tok(K::ElseKw),
                    node(K::Expression),
                ),
            ),
            node(K::SimpleExpression),
        ),
        K::SimpleExpression => both(
            node(K::LogicalExpression),
            maybe(
                both3(
                    tok(K::Colon),
                    node(K::LogicalExpression),
                    maybe(both(tok(K::Colon), node(K::LogicalExpression))),
                ),
            ),
        ),
        K::LogicalExpression => both(
            node(K::LogicalTerm),
            many(both(tok(K::OrKw), node(K::LogicalTerm))),
        ),
        K::LogicalTerm => both(
            node(K::LogicalFactor),
            many(both(tok(K::AndKw), node(K::LogicalFactor))),
        ),
        K::LogicalFactor => both(maybe(tok(K::NotKw)), node(K::Relation)),
        K::Relation => both(
            node(K::ArithmeticExpression),
            maybe(both(node(K::RelationalOperator), node(K::ArithmeticExpression))),
        ),
        K::RelationalOperator => either4(
            tok(K::Less),
            tok(K::LessEqual),
            tok(K::Greater),
            either3(tok(K::GreaterEqual), tok(K::EqualEqual), tok(K::NotEqual)),
        ),
        K::ArithmeticExpression => both3(
            maybe(node(K::AddOperator)),
            node(K::Term),
            many(both(node(K::AddOperator), node(K::Term))),
        ),
        K::AddOperator => either4(tok(K::Plus), tok(K::Minus), tok(K::DotPlus), tok(K::DotMinus)),
        K::Term => both(node(K::Factor), many(both(node(K::MulOperator), node(K::Factor)))),
        K::MulOperator => either4(tok(K::Star), tok(K::Slash), tok(K::DotStar), tok(K::DotSlash)),
        K::Factor => both(
            node(K::Primary),
            maybe(both(either(tok(K::Flex), tok(K::DotFlex)), node(K::Primary))),
        ),
        K::Primary => either4(
            tok(K::UnsignedReal),
            tok(K::UnsignedInteger),
            tok(K::StringLiteral),
            either4(
                tok(K::FalseKw),
                tok(K::TrueKw),
                both(
                    either3(tok(K::DerKw), tok(K::InitialKw), tok(K::PureKw)),
                    node(K::FunctionCallArgs),
                ),
                either4(
                    both(node(K::ComponentReference), maybe(node(K::FunctionCallArgs))),
                    both4(
                        tok(K::LParen),
                        node(K::OutputExpressionList),
                        tok(K::RParen),
                        maybe(node(K::ArraySubscripts)),
                    ),
                    both4(
                        tok(K::LBracket),
                        node(K::ExpressionList),
                        many(both(tok(K::Semicolon), node(K::ExpressionList))),
                        tok(K::RBracket),
                    ),
                    either(
                        both3(tok(K::LCurly), node(K::ArrayArguments), tok(K::RCurly)),
                        tok(K::EndKw),
                    ),
                ),
            ),
        ),
        K::TypeSpecifier => both(maybe(tok(K::Dot)), node(K::Name)),
        K::Name => both(tok(K::Ident), many(both(tok(K::Dot), tok(K::Ident)))),
        K::ComponentReference => both4(
            maybe(tok(K::Dot)),
            tok(K::Ident),
            maybe(node(K::ArraySubscripts)),
            many(both3(tok(K::Dot), tok(K::Ident), maybe(node(K::ArraySubscripts)))),
        ),
        K::ResultReference => node(K::ComponentReference),
        K::FunctionCallArgs => both3(
            tok(K::LParen),
            maybe(node(K::FunctionArguments)),
            tok(K::RParen),
        ),
        K::FunctionArguments => both(
            either(node(K::NamedArguments), node(K::FunctionArgument)),
            either(
                both(tok(K::ForKw), node(K::ForIndices)),
                maybe(both(tok(K::Comma), node(K::FunctionArgumentsNonFirst))),
            ),
        ),
        K::FunctionArgumentsNonFirst => both(
            either(node(K::NamedArguments), node(K::FunctionArgument)),
            many(
                both(tok(K::Comma), either(node(K::NamedArguments), node(K::FunctionArgument))),
            ),
        ),
        K::ArrayArguments => both(
            node(K::Expression),
            either(
                both(tok(K::ForKw), node(K::ForIndices)),
                maybe(both(tok(K::Comma), node(K::ArrayArgumentsNonFirst))),
            ),
        ),
        K::ArrayArgumentsNonFirst => both(
            node(K::Expression),
            many(both(tok(K::Comma), node(K::Expression))),
        ),
        K::NamedArguments => node(K::NamedArgument),
        K::NamedArgument => both3(tok(K::Ident), tok(K::Equal), node(K::FunctionArgument)),
        K::FunctionArgument => either(node(K::FunctionPartialApplication), node(K::Expression)),
        K::FunctionPartialApplication => both4(
            tok(K::FunctionKw),
            node(K::TypeSpecifier),
            tok(K::LParen),
            both(
                maybe(
                    both(
                        node(K::NamedArgument),
                        many(both(tok(K::Comma), node(K::NamedArgument))),
                    ),
                ),
                tok(K::RParen),
            ),
        ),
        K::OutputExpressionList => both(
            maybe(node(K::Expression)),
            many(both(tok(K::Comma), maybe(node(K::Expression)))),
        ),
        K::ExpressionList => both(
            node(K::Expression),
            many(both(tok(K::Comma), node(K::Expression))),
        ),
        K::ArraySubscripts => both4(
            tok(K::LBracket),
            node(K::Subscript),
            many(both(tok(K::Comma), node(K::Subscript))),
            tok(K::RBracket),
        ),
        K::Subscript => either(node(K::Expression), tok(K::Colon)),
        K::Description => both(node(K::DescriptionString), maybe(node(K::AnnotationClause))),
        K::DescriptionString => maybe(
            both(tok(K::StringLiteral), many(both(tok(K::Plus), tok(K::StringLiteral)))),
        ),
        K::AnnotationClause => both(tok(K::AnnotationKw), node(K::ClassModification)),
        _ => Rule::Token(kind),
    }
}

/// Executable form of [`production`].
pub fn production_of(kind: SyntaxKind) -> (rule: Rule)
    ensures
        rule == production(kind),
{
    proof {
        reveal(production);
    }
    match kind {
        K::StoredDefinition => both(
            maybe(both3(tok(K::WithinKw), maybe(node(K::Name)), tok(K::Semicolon))),
            many(both3(maybe(tok(K::FinalKw)), node(K::ClassDefinition), tok(K::Semicolon))),
        ),
        K::ClassDefinition => both3(
            maybe(tok(K::EncapsulatedKw)),
            node(K::ClassPrefixes),
            node(K::ClassSpecifier),
        ),
        K::ClassPrefixes => both(
            maybe(tok(K::PartialKw)),
            either4(
                tok(K::ClassKw),
                tok(K::ModelKw),
                both(maybe(tok(K::OperatorKw)), tok(K::RecordKw)),
                either4(
                    tok(K::BlockKw),
                    both(maybe(tok(K::ExpandableKw)), tok(K::ConnectorKw)),
                    tok(K::TypeKw),
                    either3(
                        tok(K::PackageKw),
                        both3(
                            maybe(either(tok(K::PureKw), tok(K::ImpureKw))),
                            maybe(tok(K::OperatorKw)),
                            tok(K::FunctionKw),
                        ),
                        tok(K::OperatorKw),
                    ),
                ),
            ),
        ),
        K::ClassSpecifier => either3(
            node(K::DerClassSpecifier),
            node(K::ShortClassSpecifier),
            node(K::LongClassSpecifier),
        ),
        K::LongClassSpecifier => either(
            both4(
                tok(K::Ident),
                node(K::DescriptionString),
                node(K::Composition),
                both(tok(K::EndKw), tok(K::Ident)),
            ),
            both4(
                tok(K::ExtendsKw),
                tok(K::Ident),
                maybe(node(K::ClassModification)),
                both4(
                    node(K::DescriptionString),
                    node(K::Composition),
                    tok(K::EndKw),
                    tok(K::Ident),
                ),
            ),
        ),
        K::ShortClassSpecifier => either(
            both4(
                tok(K::Ident),
                tok(K::Equal),
                tok(K::EnumerationKw),
                both4(
                    tok(K::LParen),
                    maybe(either(node(K::EnumList), tok(K::Colon))),
                    tok(K::RParen),
                    node(K::Description),
                ),
            ),
            both4(
                tok(K::Ident),
                tok(K::Equal),
                node(K::BasePrefix),
                both4(
                    node(K::TypeSpecifier),
                    maybe(node(K::ArraySubscripts)),
                    maybe(node(K::ClassModification)),
                    node(K::Description),
                ),
            ),
        ),
        K::DerClassSpecifier => both4(
            tok(K::Ident),
            tok(K::Equal),
            tok(K::DerKw),
            both4(
                tok(K::LParen),
                node(K::TypeSpecifier),
                tok(K::Comma),
                both4(
                    tok(K::Ident),
                    many(both(tok(K::Comma), tok(K::Ident))),
                    tok(K::RParen),
                    node(K::Description),
                ),
            ),
        ),
        K::BasePrefix => maybe(either(tok(K::InputKw), tok(K::OutputKw))),
        K::EnumList => both(
            node(K::EnumerationLiteral),
            many(both(tok(K::Comma), node(K::EnumerationLiteral))),
        ),
        K::EnumerationLiteral => both(tok(K::Ident), node(K::Description)),
        K::Composition => both4(
            node(K::ElementList),
            many(
                either4(
                    both(tok(K::PublicKw), node(K::ElementList)),
                    both(tok(K::ProtectedKw), node(K::ElementList)),
                    node(K::EquationSection),
                    node(K::AlgorithmSection),
                ),
            ),
            maybe(
                both4(
                    tok(K::ExternalKw),
                    maybe(node(K::LanguageSpecification)),
                    maybe(node(K::ExternalFunctionCall)),
                    both(maybe(node(K::AnnotationClause)), tok(K::Semicolon)),
                ),
            ),
            maybe(both(node(K::AnnotationClause), tok(K::Semicolon))),
        ),
        K::LanguageSpecification => tok(K::StringLiteral),
        K::ExternalFunctionCall => both4(
            maybe(both(node(K::ComponentReference), tok(K::Equal))),
            tok(K::Ident),
            tok(K::LParen),
            both(maybe(node(K::ExpressionList)), tok(K::RParen)),
        ),
        K::ElementList => many(both(node(K::Element), tok(K::Semicolon))),
        K::Element => either3(
            node(K::ImportClause),
            node(K::ExtendsClause),
            both4(
                maybe(tok(K::RedeclareKw)),
                maybe(tok(K::FinalKw)),
                maybe(tok(K::InnerKw)),
                both(
                    maybe(tok(K::OuterKw)),
                    either3(
                        both3(
                            tok(K::ReplaceableKw),
                            either(node(K::ClassDefinition), node(K::ComponentClause)),
                            maybe(both(node(K::ConstrainingClause), node(K::Description))),
                        ),
                        node(K::ClassDefinition),
                        node(K::ComponentClause),
                    ),
                ),
            ),
        ),
        K::ImportClause => both3(
            tok(K::ImportKw),
            either(
                both3(tok(K::Ident), tok(K::Equal), node(K::Name)),
                both(
                    node(K::Name),
                    maybe(
                        either(
                            tok(K::DotStar),
                            both(
                                tok(K::Dot),
                                either(
                                    tok(K::Star),
                                    both3(tok(K::LCurly), node(K::ImportList), tok(K::RCurly)),
                                ),
                            ),
                        ),
                    ),
                ),
            ),
            node(K::Description),
        ),
        K::ImportList => both(tok(K::Ident), many(both(tok(K::Comma), tok(K::Ident)))),
        K::ExtendsClause => both4(
            tok(K::ExtendsKw),
            node(K::TypeSpecifier),
            maybe(node(K::ClassOrInheritanceModification)),
            maybe(node(K::AnnotationClause)),
        ),
        K::ConstrainingClause => both3(
            tok(K::ConstrainedbyKw),
            node(K::TypeSpecifier),
            maybe(node(K::ClassModification)),
        ),
        K::ClassOrInheritanceModification => both3(
            tok(K::LParen),
            maybe(node(K::ArgumentOrInheritanceModificationList)),
            tok(K::RParen),
        ),
        K::ArgumentOrInheritanceModificationList => both(
            either(node(K::Argument), node(K::InheritanceModification)),
            many(
                both(
                    tok(K::Comma),
                    either(node(K::Argument), node(K::InheritanceModification)),
                ),
            ),
        ),
        K::InheritanceModification => both(
            tok(K::BreakKw),
            either(node(K::ConnectEquation), tok(K::Ident)),
        ),
        K::ComponentClause => both4(
            node(K::TypePrefix),
            node(K::TypeSpecifier),
            maybe(node(K::ArraySubscripts)),
            node(K::ComponentList),
        ),
        K::TypePrefix => both3(
            maybe(either(tok(K::FlowKw), tok(K::StreamKw))),
            maybe(either3(tok(K::DiscreteKw), tok(K::ParameterKw), tok(K::ConstantKw))),
            maybe(either(tok(K::InputKw), tok(K::OutputKw))),
        ),
        K::ComponentList => both(
            node(K::ComponentDeclaration),
            many(both(tok(K::Comma), node(K::ComponentDeclaration))),
        ),
        K::ComponentDeclaration => both3(
            node(K::Declaration),
            maybe(node(K::ConditionAttribute)),
            node(K::Description),
        ),
        K::ConditionAttribute => both(tok(K::IfKw), node(K::Expression)),
        K::Declaration => both3(
            tok(K::Ident),
            maybe(node(K::ArraySubscripts)),
            maybe(node(K::Modification)),
        ),
        K::Modification => either3(
            both(
                node(K::ClassModification),
                maybe(both(tok(K::Equal), node(K::ModificationExpression))),
            ),
            both(tok(K::Equal), node(K::ModificationExpression)),
            both(tok(K::Assign), node(K::ModificationExpression)),
        ),
        K::ModificationExpression => either(node(K::Expression), tok(K::BreakKw)),
        K::ClassModification => both3(
            tok(K::LParen),
            maybe(node(K::ArgumentList)),
            tok(K::RParen),
        ),
        K::ArgumentList => both(node(K::Argument), many(both(tok(K::Comma), node(K::Argument)))),
        K::Argument => either(
            node(K::ElementRedeclaration),
            node(K::ElementModificationOrReplaceable),
        ),
        K::ElementModificationOrReplaceable => both3(
            maybe(tok(K::EachKw)),
            maybe(tok(K::FinalKw)),
            either(node(K::ElementModification), node(K::ElementReplaceable)),
        ),
        K::ElementModification => both3(
            node(K::Name),
            maybe(node(K::Modification)),
            node(K::DescriptionString),
        ),
        K::ElementRedeclaration => both4(
            tok(K::RedeclareKw),
            maybe(tok(K::EachKw)),
            maybe(tok(K::FinalKw)),
            either3(
                node(K::ShortClassDefinition),
                node(K::ComponentClause1),
                node(K::ElementReplaceable),
            ),
        ),
        K::ElementReplaceable => both3(
            tok(K::ReplaceableKw),
            either(node(K::ShortClassDefinition), node(K::ComponentClause1)),
            maybe(node(K::ConstrainingClause)),
        ),
        K::ComponentClause1 => both3(
            node(K::TypePrefix),
            node(K::TypeSpecifier),
            node(K::ComponentDeclaration1),
        ),
        K::ComponentDeclaration1 => both(node(K::Declaration), node(K::Description)),
        K::ShortClassDefinition => both(node(K::ClassPrefixes), node(K::ShortClassSpecifier)),
        K::EquationSection => both3(
            maybe(tok(K::InitialKw)),
            tok(K::EquationKw),
            many(both(node(K::Equation), tok(K::Semicolon))),
        ),
        K::AlgorithmSection => both3(
            maybe(tok(K::InitialKw)),
            tok(K::AlgorithmKw),
            many(both(node(K::Statement), tok(K::Semicolon))),
        ),
        K::Equation => both(
            either4(
                node(K::IfEquation),
                node(K::ForEquation),
                node(K::ConnectEquation),
                either3(
                    node(K::WhenEquation),
                    both3(node(K::SimpleExpression), tok(K::Equal), node(K::Expression)),
                    both(node(K::ComponentReference), node(K::FunctionCallArgs)),
                ),
            ),
            node(K::Description),
        ),
        K::Statement => both(
            either4(
                node(K::IfStatement),
                node(K::ForStatement),
                node(K::WhileStatement),
                either4(
                    node(K::WhenStatement),
                    tok(K::BreakKw),
                    tok(K::ReturnKw),
                    either(
                        both4(
                            tok(K::LParen),
                            node(K::OutputExpressionList),
                            tok(K::RParen),
                            both3(
                                tok(K::Assign),
                                node(K::ComponentReference),
                                node(K::FunctionCallArgs),
                            ),
                        ),
                        both(
                            node(K::ComponentReference),
                            either(
                                both(tok(K::Assign), node(K::Expression)),
                                node(K::FunctionCallArgs),
                            ),
                        ),
                    ),
                ),
            ),
            node(K::Description),
        ),
        K::IfEquation => both4(
            tok(K::IfKw),
            node(K::Expression),
            tok(K::ThenKw),
            both4(
                many(both(node(K::Equation), tok(K::Semicolon))),
                many(
                    both4(
                        tok(K::ElseIfKw),
                        node(K::Expression),
                        tok(K::ThenKw),
                        many(both(node(K::Equation), tok(K::Semicolon))),
                    ),
                ),
                maybe(both(tok(K::ElseKw), many(both(node(K::Equation), tok(K::Semicolon))))),
                both(tok(K::EndKw), tok(K::IfKw)),
            ),
        ),
        K::IfStatement => both4(
            tok(K::IfKw),
            node(K::Expression),
            tok(K::ThenKw),
            both4(
                many(both(node(K::Statement), tok(K::Semicolon))),
                many(
                    both4(
                        tok(K::ElseIfKw),
                        node(K::Expression),
                        tok(K::ThenKw),
                        many(both(node(K::Statement), tok(K::Semicolon))),
                    ),
                ),
                maybe(both(tok(K::ElseKw), many(both(node(K::Statement), tok(K::Semicolon))))),
                both(tok(K::EndKw), tok(K::IfKw)),
            ),
        ),
        K::ForEquation => both4(
            tok(K::ForKw),
            node(K::ForIndices),
            tok(K::LoopKw),
            both3(
                many(both(node(K::Equation), tok(K::Semicolon))),
                tok(K::EndKw),
                tok(K::ForKw),
            ),
        ),
        K::ForStatement => both4(
            tok(K::ForKw),
            node(K::ForIndices),
            tok(K::LoopKw),
            both3(
                many(both(node(K::Statement), tok(K::Semicolon))),
                tok(K::EndKw),
                tok(K::ForKw),
            ),
        ),
        K::ForIndices => both(node(K::ForIndex), many(both(tok(K::Comma), node(K::ForIndex)))),
        K::ForIndex => both(tok(K::Ident), maybe(both(tok(K::InKw), node(K::Expression)))),
        K::WhileStatement => both4(
            tok(K::WhileKw),
            node(K::Expression),
            tok(K::LoopKw),
            both3(
                many(both(node(K::Statement), tok(K::Semicolon))),
                tok(K::EndKw),
                tok(K::WhileKw),
            ),
        ),
        K::WhenEquation => both4(
            tok(K::WhenKw),
            node(K::Expression),
            tok(K::ThenKw),
            both4(
                many(both(node(K::Equation), tok(K::Semicolon))),
                many(
                    both4(
                        tok(K::ElseWhenKw),
                        node(K::Expression),
                        tok(K::ThenKw),
                        many(both(node(K::Equation), tok(K::Semicolon))),
                    ),
                ),
                tok(K::EndKw),
                tok(K::WhenKw),
            ),
        ),
        K::WhenStatement => both4(
            tok(K::WhenKw),
            node(K::Expression),
            tok(K::ThenKw),
            both4(
                many(both(node(K::Statement), tok(K::Semicolon))),
                many(
                    both4(
                        tok(K::ElseWhenKw),
                        node(K::Expression),
                        tok(K::ThenKw),
                        many(both(node(K::Statement), tok(K::Semicolon))),
                    ),
                ),
                tok(K::EndKw),
                tok(K::WhenKw),
            ),
        ),
        K::ConnectEquation => both4(
            tok(K::ConnectKw),
            tok(K::LParen),
            node(K::ComponentReference),
            both3(tok(K::Comma), node(K::ComponentReference), tok(K::RParen)),
        ),
        K::Expression => either(
            both4(
                tok(K::IfKw),
                node(K::Expression),
                tok(K::ThenKw),
                both4(
                    node(K::Expression),
                    many(
                        both4(
                            tok(K::ElseIfKw),
                            node(K::Expression),
                            tok(K::ThenKw),
                            node(K::Expression),
                        ),
                    ),
                    tok(K::ElseKw),
                    node(K::Expression),
                ),
            ),
            node(K::SimpleExpression),
        ),
        K::SimpleExpression => both(
            node(K::LogicalExpression),
            maybe(
                both3(
                    tok(K::Colon),
                    node(K::LogicalExpression),
                    maybe(both(tok(K::Colon), node(K::LogicalExpression))),
                ),
            ),
        ),
        K::LogicalExpression => both(
            node(K::LogicalTerm),
            many(both(tok(K::OrKw), node(K::LogicalTerm))),
        ),
        K::LogicalTerm => both(
            node(K::LogicalFactor),
            many(both(tok(K::AndKw), node(K::LogicalFactor))),
        ),
        K::LogicalFactor => both(maybe(tok(K::NotKw)), node(K::Relation)),
        K::Relation => both(
            node(K::ArithmeticExpression),
            maybe(both(node(K::RelationalOperator), node(K::ArithmeticExpression))),
        ),
        K::RelationalOperator => either4(
            tok(K::Less),
            tok(K::LessEqual),
            tok(K::Greater),
            either3(tok(K::GreaterEqual), tok(K::EqualEqual), tok(K::NotEqual)),
        ),
        K::ArithmeticExpression => both3(
            maybe(node(K::AddOperator)),
            node(K::Term),
            many(both(node(K::AddOperator), node(K::Term))),
        ),
        K::AddOperator => either4(tok(K::Plus), tok(K::Minus), tok(K::DotPlus), tok(K::DotMinus)),
        K::Term => both(node(K::Factor), many(both(node(K::MulOperator), node(K::Factor)))),
        K::MulOperator => either4(tok(K::Star), tok(K::Slash), tok(K::DotStar), tok(K::DotSlash)),
        K::Factor => both(
            node(K::Primary),
            maybe(both(either(tok(K::Flex), tok(K::DotFlex)), node(K::Primary))),
        ),
        K::Primary => either4(
            tok(K::UnsignedReal),
            tok(K::UnsignedInteger),
            tok(K::StringLiteral),
            either4(
                tok(K::FalseKw),
                tok(K::TrueKw),
                both(
                    either3(tok(K::DerKw), tok(K::InitialKw), tok(K::PureKw)),
                    node(K::FunctionCallArgs),
                ),
                either4(
                    both(node(K::ComponentReference), maybe(node(K::FunctionCallArgs))),
                    both4(
                        tok(K::LParen),
                        node(K::OutputExpressionList),
                        tok(K::RParen),
                        maybe(node(K::ArraySubscripts)),
                    ),
                    both4(
                        tok(K::LBracket),
                        node(K::ExpressionList),
                        many(both(tok(K::Semicolon), node(K::ExpressionList))),
                        tok(K::RBracket),
                    ),
                    either(
                        both3(tok(K::LCurly), node(K::ArrayArguments), tok(K::RCurly)),
                        tok(K::EndKw),
                    ),
                ),
            ),
        ),
        K::TypeSpecifier => both(maybe(tok(K::Dot)), node(K::Name)),
        K::Name => both(tok(K::Ident), many(both(tok(K::Dot), tok(K::Ident)))),
        K::ComponentReference => both4(
            maybe(tok(K::Dot)),
            tok(K::Ident),
            maybe(node(K::ArraySubscripts)),
            many(both3(tok(K::Dot), tok(K::Ident), maybe(node(K::ArraySubscripts)))),
        ),
        K::ResultReference => node(K::ComponentReference),
        K::FunctionCallArgs => both3(
            tok(K::LParen),
            maybe(node(K::FunctionArguments)),
            tok(K::RParen),
        ),
        K::FunctionArguments => both(
            either(node(K::NamedArguments), node(K::FunctionArgument)),
            either(
                both(tok(K::ForKw), node(K::ForIndices)),
                maybe(both(tok(K::Comma), node(K::FunctionArgumentsNonFirst))),
            ),
        ),
        K::FunctionArgumentsNonFirst => both(
            either(node(K::NamedArguments), node(K::FunctionArgument)),
            many(
                both(tok(K::Comma), either(node(K::NamedArguments), node(K::FunctionArgument))),
            ),
        ),
        K::ArrayArguments => both(
            node(K::Expression),
            either(
                both(tok(K::ForKw), node(K::ForIndices)),
                maybe(both(tok(K::Comma), node(K::ArrayArgumentsNonFirst))),
            ),
        ),
        K::ArrayArgumentsNonFirst => both(
            node(K::Expression),
            many(both(tok(K::Comma), node(K::Expression))),
        ),
        K::NamedArguments => node(K::NamedArgument),
        K::NamedArgument => both3(tok(K::Ident), tok(K::Equal), node(K::FunctionArgument)),
        K::FunctionArgument => either(node(K::FunctionPartialApplication), node(K::Expression)),
        K::FunctionPartialApplication => both4(
            tok(K::FunctionKw),
            node(K::TypeSpecifier),
            tok(K::LParen),
            both(
                maybe(
                    both(
                        node(K::NamedArgument),
                        many(both(tok(K::Comma), node(K::NamedArgument))),
                    ),
                ),
                tok(K::RParen),
            ),
        ),
        K::OutputExpressionList => both(
            maybe(node(K::Expression)),
            many(both(tok(K::Comma), maybe(node(K::Expression)))),
        ),
        K::ExpressionList => both(
            node(K::Expression),
            many(both(tok(K::Comma), node(K::Expression))),
        ),
        K::ArraySubscripts => both4(
            tok(K::LBracket),
            node(K::Subscript),
            many(both(tok(K::Comma), node(K::Subscript))),
            tok(K::RBracket),
        ),
        K::Subscript => either(node(K::Expression), tok(K::Colon)),
        K::Description => both(node(K::DescriptionString), maybe(node(K::AnnotationClause))),
        K::DescriptionString => maybe(
            both(tok(K::StringLiteral), many(both(tok(K::Plus), tok(K::StringLiteral)))),
        ),
        K::AnnotationClause => both(tok(K::AnnotationKw), node(K::ClassModification)),
        _ => Rule::Token(kind),
    }
}

} // verus!
