//! The typed syntax tree the parser produces, and the well-formedness the
//! parser guarantees of every tree it returns: ordered spans that lie inside
//! the source and agree with the spans of the children.

use vstd::prelude::*;

use crate::span::{span_in, Span};

verus! {

/// A name as written in the source.
#[derive(Debug)]
pub struct Identifier {
    pub name: String,
    pub span: Span,
}

/// One `key: value` entry of an object literal.
#[derive(Debug)]
pub struct ObjectProperty {
    pub key: Identifier,
    pub value: Expr,
}

/// A literal value. `Number` keeps the lexeme verbatim; conversion is a
/// later stage's business. `String` holds the content between the quotes.
#[derive(Debug)]
pub enum Literal {
    Number { raw: String, span: Span },
    String { value: String, span: Span },
    Array { elements: Vec<Expr>, span: Span },
    Object { properties: Vec<ObjectProperty>, span: Span },
}

/// A prefix operator.
#[derive(Debug, Clone, Copy, PartialEq, Eq, Structural)]
pub enum UnaryOp {
    Plus,
    Minus,
    Not,
}

/// An infix operator.
#[derive(Debug, Clone, Copy, PartialEq, Eq, Structural)]
pub enum BinaryOp {
    Add,
    Sub,
    Mul,
    Div,
    Mod,
    Assign,
    Equals,
    StrictEquals,
    NotEquals,
    StrictNotEquals,
    Less,
    Greater,
    LessOrEqual,
    GreaterOrEqual,
    And,
    Or,
}

/// An expression. Every variant carries the smallest span covering the
/// tokens it was built from.
#[derive(Debug)]
pub enum Expr {
    Identifier(Identifier),
    Literal(Literal),
    Unary { op: UnaryOp, expr: Box<Expr>, span: Span },
    Binary { op: BinaryOp, lhs: Box<Expr>, rhs: Box<Expr>, span: Span },
    Assignment { target: Identifier, value: Box<Expr>, span: Span },
    Grouping { expr: Box<Expr>, span: Span },
    Call { callee: Box<Expr>, args: Vec<Expr>, span: Span },
}

/// A statement.
#[derive(Debug)]
pub enum Stmt {
    VarDecl { name: Identifier, init: Expr, span: Span },
    Expr { expr: Expr, span: Span },
    Block(Block),
    Empty { span: Span },
    If { condition: Expr, then_branch: Box<Stmt>, else_branch: Option<Box<Stmt>>, span: Span },
    While { condition: Expr, body: Box<Stmt>, span: Span },
    For {
        init: Option<Box<Stmt>>,
        condition: Option<Expr>,
        update: Option<Expr>,
        body: Box<Stmt>,
        span: Span,
    },
    Break { span: Span },
    Continue { span: Span },
}

/// A braced statement list.
#[derive(Debug)]
pub struct Block {
    pub stmts: Vec<Stmt>,
    pub span: Span,
}

/// A whole source file: the top-level statements in source order.
#[derive(Debug)]
pub struct Program {
    pub items: Vec<Stmt>,
}

impl Expr {
    /// The span of the expression.
    pub open spec fn spec_span(&self) -> Span {
        match self {
            Expr::Identifier(id) => id.span,
            Expr::Literal(lit) => lit.spec_span(),
            Expr::Unary { span, .. } => *span,
            Expr::Binary { span, .. } => *span,
            Expr::Assignment { span, .. } => *span,
            Expr::Grouping { span, .. } => *span,
            Expr::Call { span, .. } => *span,
        }
    }

    /// The span of the expression. Total: every variant carries one.
    pub fn span(&self) -> (r: Span)
        ensures
            r == self.spec_span(),
    {
        match self {
            Expr::Identifier(id) => id.span,
            Expr::Literal(lit) => lit.span(),
            Expr::Unary { span, .. } => *span,
            Expr::Binary { span, .. } => *span,
            Expr::Assignment { span, .. } => *span,
            Expr::Grouping { span, .. } => *span,
            Expr::Call { span, .. } => *span,
        }
    }
}

impl Literal {
    /// The span of the literal.
    pub open spec fn spec_span(&self) -> Span {
        match self {
            Literal::Number { span, .. } => *span,
            Literal::String { span, .. } => *span,
            Literal::Array { span, .. } => *span,
            Literal::Object { span, .. } => *span,
        }
    }

    /// The span of the literal.
    pub fn span(&self) -> (r: Span)
        ensures
            r == self.spec_span(),
    {
        match self {
            Literal::Number { span, .. } => *span,
            Literal::String { span, .. } => *span,
            Literal::Array { span, .. } => *span,
            Literal::Object { span, .. } => *span,
        }
    }
}

impl Stmt {
    /// The span of the statement.
    pub open spec fn spec_span(&self) -> Span {
        match self {
            Stmt::VarDecl { span, .. } => *span,
            Stmt::Expr { span, .. } => *span,
            Stmt::Block(bl) => bl.span,
            Stmt::Empty { span } => *span,
            Stmt::If { span, .. } => *span,
            Stmt::While { span, .. } => *span,
            Stmt::For { span, .. } => *span,
            Stmt::Break { span } => *span,
            Stmt::Continue { span } => *span,
        }
    }

    /// The span of the statement.
    pub fn span(&self) -> (r: Span)
        ensures
            r == self.spec_span(),
    {
        match self {
            Stmt::VarDecl { span, .. } => *span,
            Stmt::Expr { span, .. } => *span,
            Stmt::Block(bl) => bl.span,
            Stmt::Empty { span } => *span,
            Stmt::If { span, .. } => *span,
            Stmt::While { span, .. } => *span,
            Stmt::For { span, .. } => *span,
            Stmt::Break { span } => *span,
            Stmt::Continue { span } => *span,
        }
    }
}

/// Well-formedness of an expression the parser returns, over a source of
/// `n` bytes: every span is ordered and inside the source, and each node's
/// span covers its children, extended only by the node's own tokens: an
/// infix node's span runs exactly from its first operand's start to its
/// last operand's end, a prefix node's ends exactly with its operand, and a
/// grouping's covers its parentheses. The variants the grammar holds in
/// reserve never come out of the parser.
pub open spec fn expr_wf(e: Expr, n: int) -> bool
    decreases e,
{
    match e {
        Expr::Identifier(id) => span_in(id.span, n),
        Expr::Literal(lit) => match lit {
            Literal::Number { span, .. } => span_in(span, n),
            Literal::String { span, .. } => span_in(span, n),
            Literal::Array { .. } => false,
            Literal::Object { .. } => false,
        },
        Expr::Unary { expr, span, .. } => {
            &&& span_in(span, n)
            &&& expr_wf(*expr, n)
            &&& span.start <= expr.spec_span().start
            &&& span.end == expr.spec_span().end
        },
        Expr::Binary { lhs, rhs, span, .. } => {
            &&& span_in(span, n)
            &&& expr_wf(*lhs, n)
            &&& expr_wf(*rhs, n)
            &&& span.start == lhs.spec_span().start
            &&& span.end == rhs.spec_span().end
            &&& lhs.spec_span().end <= rhs.spec_span().start
        },
        Expr::Assignment { .. } => false,
        Expr::Grouping { expr, span } => {
            &&& span_in(span, n)
            &&& expr_wf(*expr, n)
            &&& span.start <= expr.spec_span().start
            &&& expr.spec_span().end <= span.end
        },
        Expr::Call { .. } => false,
    }
}

/// Well-formedness of a statement the parser returns: span discipline as in
/// [`expr_wf`], recursively. The looping statements are reserved by the
/// grammar and never come out of the parser.
pub open spec fn stmt_wf(s: Stmt, n: int) -> bool
    decreases s,
{
    match s {
        Stmt::VarDecl { name, init, span } => {
            &&& span_in(span, n)
            &&& span_in(name.span, n)
            &&& expr_wf(init, n)
            &&& span.start <= name.span.start
            &&& name.span.end <= init.spec_span().start
            &&& init.spec_span().end <= span.end
        },
        Stmt::Expr { expr, span } => {
            &&& span_in(span, n)
            &&& expr_wf(expr, n)
            &&& span.start == expr.spec_span().start
            &&& expr.spec_span().end <= span.end
        },
        Stmt::Block(bl) => block_wf(bl, n),
        Stmt::Empty { span } => span_in(span, n),
        Stmt::If { condition, then_branch, else_branch, span } => {
            &&& span_in(span, n)
            &&& expr_wf(condition, n)
            &&& stmt_wf(*then_branch, n)
            &&& span.start <= condition.spec_span().start
            &&& match else_branch {
                Some(e) => stmt_wf(*e, n) && span.end == e.spec_span().end
                    && then_branch.spec_span().end <= e.spec_span().end,
                None => span.end == then_branch.spec_span().end,
            }
        },
        Stmt::While { .. } => false,
        Stmt::For { .. } => false,
        Stmt::Break { .. } => false,
        Stmt::Continue { .. } => false,
    }
}

/// Well-formedness of a block: its own span discipline and that of every
/// statement in it.
pub open spec fn block_wf(bl: Block, n: int) -> bool
    decreases bl,
{
    &&& span_in(bl.span, n)
    &&& forall|i: int| 0 <= i < bl.stmts.len() ==> stmt_wf(#[trigger] bl.stmts[i], n)
}

/// A well-formed expression has an ordered span inside the source.
pub proof fn lemma_expr_wf_span(e: Expr, n: int)
    requires
        expr_wf(e, n),
    ensures
        span_in(e.spec_span(), n),
{
    match e {
        Expr::Identifier(id) => {
            assert(e == Expr::Identifier(id));
        },
        Expr::Literal(lit) => {
            assert(e == Expr::Literal(lit));
        },
        Expr::Unary { op, expr, span } => {
            assert(e == Expr::Unary { op, expr, span });
        },
        Expr::Binary { op, lhs, rhs, span } => {
            assert(e == Expr::Binary { op, lhs, rhs, span });
        },
        Expr::Assignment { target, value, span } => {
            assert(e == Expr::Assignment { target, value, span });
        },
        Expr::Grouping { expr, span } => {
            assert(e == Expr::Grouping { expr, span });
        },
        Expr::Call { callee, args, span } => {
            assert(e == Expr::Call { callee, args, span });
        },
    }
}

/// A well-formed statement has an ordered span inside the source.
pub proof fn lemma_stmt_wf_span(s: Stmt, n: int)
    requires
        stmt_wf(s, n),
    ensures
        span_in(s.spec_span(), n),
{
    match s {
        Stmt::VarDecl { name, init, span } => {
            assert(s == Stmt::VarDecl { name, init, span });
        },
        Stmt::Expr { expr, span } => {
            assert(s == Stmt::Expr { expr, span });
        },
        Stmt::Block(bl) => {
            assert(s == Stmt::Block(bl));
            assert(block_wf(bl, n));
            assert(bl == (Block { stmts: bl.stmts, span: bl.span }));
            assert(block_wf(Block { stmts: bl.stmts, span: bl.span }, n));
            assert(span_in(bl.span, n));
        },
        Stmt::Empty { span } => {
            assert(s == Stmt::Empty { span });
        },
        Stmt::If { condition, then_branch, else_branch, span } => {
            assert(s == Stmt::If { condition, then_branch, else_branch, span });
        },
        Stmt::While { condition, body, span } => {
            assert(s == Stmt::While { condition, body, span });
        },
        Stmt::For { init, condition, update, body, span } => {
            assert(s == Stmt::For { init, condition, update, body, span });
        },
        Stmt::Break { span } => {
            assert(s == Stmt::Break { span });
        },
        Stmt::Continue { span } => {
            assert(s == Stmt::Continue { span });
        },
    }
}

/// Well-formedness of a whole program: that of every item.
pub open spec fn program_wf(p: Program, n: int) -> bool {
    forall|i: int| 0 <= i < p.items.len() ==> stmt_wf(#[trigger] p.items[i], n)
}

} // verus!
