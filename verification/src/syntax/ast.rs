//! The syntax tree, as the parser builds it and the checker reads it.
use vstd::prelude::*;

use crate::diag::Span;

verus! {

/// A visibility/scope modifier written *before* `var`.
#[derive(Clone, Copy, Debug, PartialEq, Eq, Structural)]
pub enum Modifier {
    /// Lift the binding out of local scope into the module's globals.
    Global,
    /// Global, and also exported from the module.
    Pub,
}

pub open spec fn modifier_text(m: Modifier) -> Seq<char> {
    match m {
        Modifier::Global => "global"@,
        Modifier::Pub => "pub"@,
    }
}

impl Modifier {
    pub fn as_str(self) -> (r: &'static str)
        ensures
            r@ == modifier_text(self),
    {
        match self {
            Modifier::Global => "global",
            Modifier::Pub => "pub",
        }
    }
}

/// An identifier occurrence. `text` is the raw name, which may contain
/// spaces, punctuation or emoji.
#[derive(Clone, Debug)]
pub struct Name {
    pub text: String,
    pub span: Span,
}

#[derive(Clone, Copy, Debug, PartialEq, Eq, Structural)]
pub enum BinOp {
    Add,
    Sub,
    Mul,
    Div,
    Rem,
    Eq,
    Ne,
    Lt,
    Le,
    Gt,
    Ge,
}

/// How an operator is written.
pub open spec fn op_text(op: BinOp) -> Seq<char> {
    match op {
        BinOp::Add => "+"@,
        BinOp::Sub => "-"@,
        BinOp::Mul => "*"@,
        BinOp::Div => "/"@,
        BinOp::Rem => "%"@,
        BinOp::Eq => "=="@,
        BinOp::Ne => "!="@,
        BinOp::Lt => "<"@,
        BinOp::Le => "<="@,
        BinOp::Gt => ">"@,
        BinOp::Ge => ">="@,
    }
}

/// Comparisons yield `bool` regardless of what they compare.
pub open spec fn comparison(op: BinOp) -> bool {
    op is Eq || op is Ne || op is Lt || op is Le || op is Gt || op is Ge
}

/// The comparisons that order their operands.
pub open spec fn ordering(op: BinOp) -> bool {
    op is Lt || op is Le || op is Gt || op is Ge
}

impl BinOp {
    pub fn as_str(self) -> (r: &'static str)
        ensures
            r@ == op_text(self),
    {
        match self {
            BinOp::Add => "+",
            BinOp::Sub => "-",
            BinOp::Mul => "*",
            BinOp::Div => "/",
            BinOp::Rem => "%",
            BinOp::Eq => "==",
            BinOp::Ne => "!=",
            BinOp::Lt => "<",
            BinOp::Le => "<=",
            BinOp::Gt => ">",
            BinOp::Ge => ">=",
        }
    }

    /// Comparisons yield `bool` regardless of what they compare.
    pub fn is_comparison(self) -> (r: bool)
        ensures
            r == comparison(self),
    {
        matches!(self, BinOp::Eq | BinOp::Ne | BinOp::Lt | BinOp::Le | BinOp::Gt | BinOp::Ge)
    }
}

#[derive(Clone, Copy, Debug, PartialEq, Eq, Structural)]
pub enum UnOp {
    Neg,
}

/// A type as written in the source. Resolution to a real type happens later.
#[derive(Clone, Debug)]
pub struct TypeRef {
    pub text: String,
    pub span: Span,
}

#[derive(Debug)]
pub enum Expr {
    /// A quoted literal. Still untyped: `'1000'` is a number or text depending
    /// on the type it is checked against.
    Literal { text: String, span: Span },
    Ident(Name),
    /// A bare escape such as `\n`. Always `str`, whatever the context.
    Escape { text: String, span: Span },
    /// A literal that states its own type, as in `f16 '5'`. Usable anywhere,
    /// including where nothing else would supply one.
    TypedLiteral { ty: TypeRef, text: String, span: Span },
    Unary { op: UnOp, operand: Box<Expr>, span: Span },
    Binary { op: BinOp, lhs: Box<Expr>, rhs: Box<Expr>, span: Span },
    /// `| ... |`. Grouping uses pipes: `(...)` means an identifier and `[...]`
    /// is print's argument list, so neither was available.
    Group { inner: Box<Expr>, span: Span },
}

/// Where an expression stands in the source.
pub open spec fn expr_span(e: Expr) -> Span {
    match e {
        Expr::Literal { span, .. } => span,
        Expr::Escape { span, .. } => span,
        Expr::TypedLiteral { span, .. } => span,
        Expr::Unary { span, .. } => span,
        Expr::Binary { span, .. } => span,
        Expr::Group { span, .. } => span,
        Expr::Ident(n) => n.span,
    }
}

impl Expr {
    pub fn span(&self) -> (r: Span)
        ensures
            r == expr_span(*self),
    {
        match self {
            Expr::Literal { span, .. } => *span,
            Expr::Escape { span, .. } => *span,
            Expr::TypedLiteral { span, .. } => *span,
            Expr::Unary { span, .. } => *span,
            Expr::Binary { span, .. } => *span,
            Expr::Group { span, .. } => *span,
            Expr::Ident(n) => n.span,
        }
    }
}

#[derive(Debug)]
pub enum Stmt {
    Var { modifier: Option<Modifier>, ty: TypeRef, name: Name, value: Expr, span: Span },
    Assign { name: Name, value: Expr, span: Span },
    /// `if cond { ... elseif cond ... else ... }`.
    ///
    /// One brace pair holds the whole chain; `elseif` and `else` divide it
    /// rather than opening blocks of their own, so a chain of any length closes
    /// with a single `}`.
    If {
        /// The `if` arm followed by every `elseif` arm, in order.
        arms: Vec<IfArm>,
        else_arm: Vec<Stmt>,
        span: Span,
    },
    Print {
        /// Juxtaposed items, written back to back inside `[ ... ]`.
        /// `print` writes exactly these and nothing else: no separators and no
        /// newline. A line ending is written with `\n` like any other value.
        items: Vec<Expr>,
        span: Span,
    },
}

/// Where a statement stands in the source.
pub open spec fn stmt_span(s: Stmt) -> Span {
    match s {
        Stmt::Var { span, .. } => span,
        Stmt::Assign { span, .. } => span,
        Stmt::If { span, .. } => span,
        Stmt::Print { span, .. } => span,
    }
}

impl Stmt {
    pub fn span(&self) -> (r: Span)
        ensures
            r == stmt_span(*self),
    {
        match self {
            Stmt::Var { span, .. } => *span,
            Stmt::Assign { span, .. } => *span,
            Stmt::If { span, .. } => *span,
            Stmt::Print { span, .. } => *span,
        }
    }
}

/// One condition and the statements it guards.
#[derive(Debug)]
pub struct IfArm {
    pub cond: Expr,
    pub body: Vec<Stmt>,
}

/// A whole source file.
#[derive(Debug)]
pub struct Program {
    pub stmts: Vec<Stmt>,
}

// ------------------------------------------------------------------ views

/// An expression as plain values.
pub enum ExprView {
    Literal { text: Seq<char>, span: Span },
    Ident { text: Seq<char>, span: Span },
    Escape { text: Seq<char>, span: Span },
    TypedLiteral { ty: Seq<char>, ty_span: Span, text: Seq<char>, span: Span },
    Neg { operand: Box<ExprView>, span: Span },
    Binary { op: BinOp, lhs: Box<ExprView>, rhs: Box<ExprView>, span: Span },
    Group { inner: Box<ExprView>, span: Span },
}

pub open spec fn expr_view(e: Expr) -> ExprView
    decreases e,
{
    match e {
        Expr::Literal { text, span } => ExprView::Literal { text: text@, span },
        Expr::Ident(n) => ExprView::Ident { text: n.text@, span: n.span },
        Expr::Escape { text, span } => ExprView::Escape { text: text@, span },
        Expr::TypedLiteral { ty, text, span } => ExprView::TypedLiteral {
            ty: ty.text@,
            ty_span: ty.span,
            text: text@,
            span,
        },
        Expr::Unary { operand, span, .. } => ExprView::Neg { operand: Box::new(expr_view(*operand)), span },
        Expr::Binary { op, lhs, rhs, span } => ExprView::Binary {
            op,
            lhs: Box::new(expr_view(*lhs)),
            rhs: Box::new(expr_view(*rhs)),
            span,
        },
        Expr::Group { inner, span } => ExprView::Group { inner: Box::new(expr_view(*inner)), span },
    }
}

/// Where an expression view stands.
pub open spec fn espan(e: ExprView) -> Span {
    match e {
        ExprView::Literal { span, .. } => span,
        ExprView::Ident { span, .. } => span,
        ExprView::Escape { span, .. } => span,
        ExprView::TypedLiteral { span, .. } => span,
        ExprView::Neg { span, .. } => span,
        ExprView::Binary { span, .. } => span,
        ExprView::Group { span, .. } => span,
    }
}

/// A statement as plain values.
pub enum StmtView {
    Var {
        modifier: Option<Modifier>,
        ty: Seq<char>,
        ty_span: Span,
        name: Seq<char>,
        name_span: Span,
        value: ExprView,
        span: Span,
    },
    Assign { name: Seq<char>, name_span: Span, value: ExprView, span: Span },
    If { arms: Seq<(ExprView, Seq<StmtView>)>, else_arm: Seq<StmtView>, span: Span },
    Print { items: Seq<ExprView>, span: Span },
}

pub open spec fn exprs_view(v: Seq<Expr>) -> Seq<ExprView> {
    v.map_values(|e: Expr| expr_view(e))
}

pub open spec fn stmt_view(s: Stmt) -> StmtView
    decreases s, 1nat,
{
    match s {
        Stmt::Var { modifier, ty, name, value, span } => StmtView::Var {
            modifier,
            ty: ty.text@,
            ty_span: ty.span,
            name: name.text@,
            name_span: name.span,
            value: expr_view(value),
            span,
        },
        Stmt::Assign { name, value, span } => StmtView::Assign {
            name: name.text@,
            name_span: name.span,
            value: expr_view(value),
            span,
        },
        Stmt::If { arms, else_arm, span } => StmtView::If {
            arms: if_arms_view(arms@),
            else_arm: stmts_view(else_arm@),
            span,
        },
        Stmt::Print { items, span } => StmtView::Print { items: exprs_view(items@), span },
    }
}

pub open spec fn stmts_view(v: Seq<Stmt>) -> Seq<StmtView>
    decreases v, 0nat,
{
    if v.len() == 0 {
        Seq::empty()
    } else {
        stmts_view(v.subrange(0, v.len() - 1)).push(stmt_view(v[v.len() - 1]))
    }
}

pub open spec fn if_arms_view(v: Seq<IfArm>) -> Seq<(ExprView, Seq<StmtView>)>
    decreases v, 0nat,
{
    if v.len() == 0 {
        Seq::empty()
    } else {
        if_arms_view(v.subrange(0, v.len() - 1)).push(
            (expr_view(v[v.len() - 1].cond), stmts_view(v[v.len() - 1].body@)),
        )
    }
}

} // verus!
