//! The concrete syntax tree that the formatter reads: tokens with their
//! source text and position, and nodes that own their children in source
//! order.

use vstd::prelude::*;

verus! {

/// Classification of tokens and of tree nodes.
///
/// Names that end in `Kw` are keywords; the block from `LParen` to
/// `Unknown` holds the remaining tokens; everything from
/// `StoredDefinition` on is a production of the grammar and tags a node.
#[derive(Clone, Copy, Debug, PartialEq, Eq, Structural)]
pub enum SyntaxKind {
    AlgorithmKw,
    AndKw,
    AnnotationKw,
    BlockKw,
    BreakKw,
    ClassKw,
    ConnectKw,
    ConnectorKw,
    ConstantKw,
    ConstrainedbyKw,
    DerKw,
    DiscreteKw,
    EachKw,
    ElseKw,
    ElseIfKw,
    ElseWhenKw,
    EncapsulatedKw,
    EndKw,
    EnumerationKw,
    EquationKw,
    ExpandableKw,
    ExtendsKw,
    ExternalKw,
    FalseKw,
    FinalKw,
    FlowKw,
    ForKw,
    FunctionKw,
    IfKw,
    ImportKw,
    ImpureKw,
    InKw,
    InitialKw,
    InnerKw,
    InputKw,
    LoopKw,
    ModelKw,
    NotKw,
    OperatorKw,
    OrKw,
    OuterKw,
    OutputKw,
    PackageKw,
    ParameterKw,
    PartialKw,
    ProtectedKw,
    PublicKw,
    PureKw,
    RecordKw,
    RedeclareKw,
    ReplaceableKw,
    ReturnKw,
    StreamKw,
    ThenKw,
    TrueKw,
    TypeKw,
    WhenKw,
    WhileKw,
    WithinKw,
    LParen,
    RParen,
    LBracket,
    RBracket,
    LCurly,
    RCurly,
    Comma,
    Semicolon,
    Colon,
    Dot,
    Equal,
    Assign,
    Plus,
    Minus,
    Star,
    Slash,
    Flex,
    DotPlus,
    DotMinus,
    DotStar,
    DotSlash,
    DotFlex,
    Less,
    LessEqual,
    Greater,
    GreaterEqual,
    EqualEqual,
    NotEqual,
    Ident,
    StringLiteral,
    UnsignedInteger,
    UnsignedReal,
    LineComment,
    BlockComment,
    /// Text that is no token of the language.
    Unknown,
    StoredDefinition,
    ClassDefinition,
    ClassPrefixes,
    ClassSpecifier,
    LongClassSpecifier,
    ShortClassSpecifier,
    DerClassSpecifier,
    BasePrefix,
    EnumList,
    EnumerationLiteral,
    Composition,
    LanguageSpecification,
    ExternalFunctionCall,
    ElementList,
    Element,
    ImportClause,
    ImportList,
    ExtendsClause,
    ConstrainingClause,
    ClassOrInheritanceModification,
    ArgumentOrInheritanceModificationList,
    InheritanceModification,
    ComponentClause,
    TypePrefix,
    ComponentList,
    ComponentDeclaration,
    ConditionAttribute,
    Declaration,
    Modification,
    ModificationExpression,
    ClassModification,
    ArgumentList,
    Argument,
    ElementModificationOrReplaceable,
    ElementModification,
    ElementRedeclaration,
    ElementReplaceable,
    ComponentClause1,
    ComponentDeclaration1,
    ShortClassDefinition,
    EquationSection,
    AlgorithmSection,
    Equation,
    Statement,
    IfEquation,
    IfStatement,
    ForEquation,
    ForStatement,
    ForIndices,
    ForIndex,
    WhileStatement,
    WhenEquation,
    WhenStatement,
    ConnectEquation,
    Expression,
    SimpleExpression,
    LogicalExpression,
    LogicalTerm,
    LogicalFactor,
    Relation,
    RelationalOperator,
    ArithmeticExpression,
    AddOperator,
    Term,
    MulOperator,
    Factor,
    Primary,
    TypeSpecifier,
    Name,
    ComponentReference,
    ResultReference,
    FunctionCallArgs,
    FunctionArguments,
    FunctionArgumentsNonFirst,
    ArrayArguments,
    ArrayArgumentsNonFirst,
    NamedArguments,
    NamedArgument,
    FunctionArgument,
    FunctionPartialApplication,
    OutputExpressionList,
    ExpressionList,
    ArraySubscripts,
    Subscript,
    Description,
    DescriptionString,
    AnnotationClause,
    ErrorNode,
}

impl SyntaxKind {
    /// Whether the kind tags a comment token.
    pub open spec fn is_comment(self) -> bool {
        self == SyntaxKind::LineComment || self == SyntaxKind::BlockComment
    }

    /// Executable form of [`SyntaxKind::is_comment`].
    pub fn comment(self) -> (b: bool)
        ensures
            b == self.is_comment(),
    {
        self == SyntaxKind::LineComment || self == SyntaxKind::BlockComment
    }
}

/// A token: its kind, its exact source text and the source lines on which
/// it starts and ends. The formatter never changes a token; it only decides
/// what whitespace surrounds it.
#[derive(Clone, Debug)]
pub struct Token {
    pub kind: SyntaxKind,
    pub text: String,
    pub line: usize,
    pub end_line: usize,
}

/// A child of a node: a token or a nested node.
#[derive(Debug)]
pub enum Element {
    Token(Token),
    Node(SyntaxNode),
}

/// A node of the tree: a kind and the children in source order. A node owns
/// its children, so the tree is acyclic by construction.
#[derive(Debug)]
pub struct SyntaxNode {
    pub kind: SyntaxKind,
    pub children: Vec<Element>,
}

/// A whole syntax tree.
#[derive(Debug)]
pub struct ModelicaCST {
    pub root: SyntaxNode,
}

impl Token {
    /// Whether at least one empty line lies between `self` and a later
    /// token `next` in the source.
    pub open spec fn blank_before(self, next: Token) -> bool {
        next.line > self.end_line + 1
    }

    /// Whether `next` starts on the line on which `self` ends.
    pub open spec fn same_line(self, next: Token) -> bool {
        next.line == self.end_line
    }

    /// A token of the given kind and text on the given lines.
    pub fn new(kind: SyntaxKind, text: String, line: usize, end_line: usize) -> (t: Token)
        ensures
            t.kind == kind,
            t.text == text,
            t.line == line,
            t.end_line == end_line,
    {
        Token { kind, text, line, end_line }
    }

    /// Executable form of [`Token::blank_before`].
    pub fn has_blank_before(&self, next: &Token) -> (b: bool)
        ensures
            b == self.blank_before(*next),
    {
        next.line > self.end_line && next.line - self.end_line > 1
    }

    /// Executable form of [`Token::same_line`].
    pub fn on_same_line(&self, next: &Token) -> (b: bool)
        ensures
            b == self.same_line(*next),
    {
        next.line == self.end_line
    }
}

impl Element {
    /// The kind of the token or node.
    pub open spec fn kind(self) -> SyntaxKind {
        match self {
            Element::Token(t) => t.kind,
            Element::Node(n) => n.kind,
        }
    }

    /// The tokens below this element, in source order.
    pub open spec fn leaves(self) -> Seq<Token>
        decreases self,
    {
        match self {
            Element::Token(t) => seq![t],
            Element::Node(n) => n.leaves_upto(n.children@.len()),
        }
    }

    /// Executable form of [`Element::kind`].
    pub fn syntax_kind(&self) -> (k: SyntaxKind)
        ensures
            k == self.kind(),
    {
        match self {
            Element::Token(t) => t.kind,
            Element::Node(n) => n.kind,
        }
    }

    /// The first token below this element, if it has any.
    pub fn first_token(&self) -> (r: Option<&Token>)
        ensures
            match r {
                Some(t) => self.leaves().len() > 0 && *t == self.leaves()[0],
                None => self.leaves().len() == 0,
            },
        decreases self,
    {
        match self {
            Element::Token(t) => Some(t),
            Element::Node(n) => n.first_token(),
        }
    }
}

impl SyntaxNode {
    /// The tokens below the first `k` children, in source order.
    pub open spec fn leaves_upto(self, k: nat) -> Seq<Token>
        decreases self, k,
    {
        if k == 0 || k > self.children@.len() {
            Seq::empty()
        } else {
            self.leaves_upto((k - 1) as nat) + self.children@[k - 1].leaves()
        }
    }

    /// The tokens below this node, in source order.
    pub open spec fn leaves(self) -> Seq<Token> {
        self.leaves_upto(self.children@.len())
    }

    /// A node of the given kind with the given children.
    pub fn new(kind: SyntaxKind, children: Vec<Element>) -> (n: SyntaxNode)
        ensures
            n.kind == kind,
            n.children == children,
    {
        SyntaxNode { kind, children }
    }

    /// The first token below this node, if it has any.
    pub fn first_token(&self) -> (r: Option<&Token>)
        ensures
            match r {
                Some(t) => self.leaves().len() > 0 && *t == self.leaves()[0],
                None => self.leaves().len() == 0,
            },
        decreases self, 0nat,
    {
        let mut i: usize = 0;
        while i < self.children.len()
            invariant
                i <= self.children@.len(),
                self.leaves_upto(i as nat).len() == 0,
            decreases self.children@.len() - i,
        {
            let found = self.children[i].first_token();
            if found.is_some() {
                proof {
                    self.lemma_leaves_prefix((i + 1) as nat, self.children@.len());
                }
                return found;
            }
            i = i + 1;
        }
        None
    }

    /// The tokens below the first `a` children are a prefix of those below
    /// the first `b`, for `a <= b`.
    pub proof fn lemma_leaves_prefix(self, a: nat, b: nat)
        requires
            a <= b <= self.children@.len(),
        ensures
            self.leaves_upto(a).len() <= self.leaves_upto(b).len(),
            self.leaves_upto(a) =~= self.leaves_upto(b).subrange(
                0,
                self.leaves_upto(a).len() as int,
            ),
        decreases b,
    {
        if a < b {
            self.lemma_leaves_prefix(a, (b - 1) as nat);
        }
    }

    /// Appends the tokens below this node to `out`, in source order.
    pub fn collect_tokens<'a>(&'a self, out: &mut Vec<&'a Token>)
        ensures
            owned(final(out)@) == owned(old(out)@) + self.leaves(),
        decreases self,
    {
        let mut i: usize = 0;
        while i < self.children.len()
            invariant
                i <= self.children@.len(),
                owned(out@) == owned(old(out)@) + self.leaves_upto(i as nat),
            decreases self.children@.len() - i,
        {
            assert(self.leaves_upto((i + 1) as nat) == self.leaves_upto(i as nat)
                + self.children@[i as int].leaves());
            let ghost before = out@;
            match &self.children[i] {
                Element::Token(t) => {
                    out.push(t);
                    assert(owned(out@) =~= owned(before) + seq![*t]);
                },
                Element::Node(n) => {
                    n.collect_tokens(out);
                },
            }
            assert(owned(out@) =~= owned(old(out)@) + self.leaves_upto((i + 1) as nat));
            i = i + 1;
        }
    }
}

/// The tokens that a sequence of references refers to.
pub open spec fn owned(refs: Seq<&Token>) -> Seq<Token> {
    Seq::new(refs.len(), |i: int| *refs[i])
}

impl ModelicaCST {
    /// The token stream of the tree: every token, in source order.
    pub open spec fn tokens(self) -> Seq<Token> {
        self.root.leaves()
    }

    /// The tree under the given root.
    pub fn new(root: SyntaxNode) -> (t: ModelicaCST)
        ensures
            t.root == root,
    {
        ModelicaCST { root }
    }
}

} // verus!
