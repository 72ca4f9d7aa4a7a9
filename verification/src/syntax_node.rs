use vstd::prelude::*;

verus! {

/// A parsed Ruby node, as far as the layout decisions read it: what kind
/// of node it is, the facts of that kind that they look at, and where it
/// stands in the source.
pub struct SyntaxNode {
    pub kind: SyntaxKind,
    pub start_offset: usize,
    pub end_offset: usize,
}

/// The kinds of node that the layout decisions tell apart.
#[allow(inconsistent_fields)]
pub enum SyntaxKind {
    /// `if`, with or without the `if` keyword (a ternary has none).
    If { has_keyword: bool },
    Unless,
    /// `while`; a modifier `while` has no closing `end`.
    While { has_closing: bool },
    /// `until`; a modifier `until` has no closing `end`.
    Until { has_closing: bool },
    RescueModifier,
    /// `and` or `&&`, with the operator's text.
    And { operator: Vec<u8> },
    /// `or` or `||`, with the operator's text.
    Or { operator: Vec<u8> },
    Case,
    CaseMatch,
    Begin,
    For,
    Def,
    Class,
    Module,
    LocalVariableWrite,
    /// `( ... )`, with what it holds.
    Parentheses { body: Option<Box<SyntaxNode>> },
    /// A list of statements.
    Statements { body: Vec<SyntaxNode> },
    /// A method call.
    Call(Box<CallNode>),
    /// A `do ... end` or `{ ... }` block.
    Block { opening: Vec<u8>, body: Option<Box<SyntaxNode>> },
    /// `&blk` passed as a block.
    BlockArgument,
    /// `->(...) { ... }`.
    Lambda { opening: Vec<u8>, body: Option<Box<SyntaxNode>> },
    /// A range; an endless one has no right side.
    Range { has_right: bool },
    ConstantRead { name: Vec<u8> },
    /// A string's text: as written in the source, and with its escapes
    /// (and, in a squiggly heredoc, its common indent) undone.
    StringNode { raw: Vec<u8>, unescaped: Vec<u8> },
    ConstantPath,
    LocalVariableRead,
    GlobalVariableRead,
    InstanceVariableRead,
    ClassVariableRead,
    ItLocalVariableRead,
    NumberedReferenceRead,
    SelfNode,
    Splat,
    ForwardingArguments,
    /// Any other kind of node.
    Other,
}

/// What the layout decisions read of a method call.
pub struct CallNode {
    /// The method's name.
    pub name: Vec<u8>,
    pub receiver: Option<SyntaxNode>,
    pub arguments: Option<Vec<SyntaxNode>>,
    /// A block or a block argument.
    pub block: Option<SyntaxNode>,
    /// Whether the call was written with an opening parenthesis.
    pub has_opening: bool,
    /// Where the `.` or `&.` starts, if the call has one.
    pub call_operator_start: Option<usize>,
    /// Where the method's name starts, if it is written.
    pub message_start: Option<usize>,
}

/// The parameters of a method or a block, by kind, in the order Ruby takes
/// them: `def foo(a, b = 1, *c, d, e:, **f, &g)`.
pub struct ParametersNode {
    pub requireds: Vec<SyntaxNode>,
    pub optionals: Vec<SyntaxNode>,
    pub rest: Option<SyntaxNode>,
    pub posts: Vec<SyntaxNode>,
    pub keywords: Vec<SyntaxNode>,
    pub keyword_rest: Option<SyntaxNode>,
    pub block: Option<SyntaxNode>,
}

} // verus!
