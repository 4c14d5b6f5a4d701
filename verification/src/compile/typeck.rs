//! The type checker.
//!
//! Checking is bidirectional. A literal has no type of its own, so it is always
//! *checked against* a type that came from somewhere else: a declaration's
//! annotation, or the other operand of an arithmetic expression. When no such
//! type exists the program is rejected rather than guessed at, which is the
//! whole reason the language annotates in the first place.
use vstd::prelude::*;
use vstd::string::StringSliceAdditionalSpecFns;

use crate::bytecode::chunk::{Const, ConstView};
use crate::bytecode::value::{
    float_type, lemma_from_name, rt_type_name, signed_int, type_named, unsigned_int, RtType,
};
use crate::compile::literal::{literal_reading, parse, FloatReading, LitErrView};
use crate::diag::{diag, helped, line_of, newlines, DiagView, Diagnostic, Span};
use crate::num::decimal::{decimal_chars, push_decimal};
use crate::rule::Rule;
use crate::syntax::ast::{
    comparison, expr_span, op_text, ordering, stmt_span, BinOp, Expr, Modifier, Name, Program, Stmt, UnOp,
};
use crate::text::{chars_of, str_eq};

verus! {

/// Where a binding lives.
#[derive(Clone, Copy, Debug, PartialEq, Eq, Structural)]
pub enum Place {
    Local(u32),
    Global(u32),
}

/// What a declared name stands for.
#[derive(Clone, Copy, Debug, PartialEq, Eq, Structural)]
pub struct Binding {
    pub place: Place,
    pub ty: RtType,
    pub declared_at: Span,
}

/// An expression with every type resolved and every literal already read.
#[derive(Debug)]
pub enum TExpr {
    Const(Const, RtType),
    Load(Place, RtType),
    Neg(Box<TExpr>, RtType),
    Bin {
        op: BinOp,
        /// The type both operands were checked at.
        operand_ty: RtType,
        result: RtType,
        lhs: Box<TExpr>,
        rhs: Box<TExpr>,
    },
}

/// A checked expression as plain values.
pub enum TExprView {
    Const(ConstView, RtType),
    Load(Place, RtType),
    Neg(Box<TExprView>, RtType),
    Bin { op: BinOp, operand_ty: RtType, result: RtType, lhs: Box<TExprView>, rhs: Box<TExprView> },
}

pub open spec fn texpr_view(e: TExpr) -> TExprView
    decreases e,
{
    match e {
        TExpr::Const(c, t) => TExprView::Const(c@, t),
        TExpr::Load(p, t) => TExprView::Load(p, t),
        TExpr::Neg(inner, t) => TExprView::Neg(Box::new(texpr_view(*inner)), t),
        TExpr::Bin { op, operand_ty, result, lhs, rhs } => TExprView::Bin {
            op,
            operand_ty,
            result,
            lhs: Box::new(texpr_view(*lhs)),
            rhs: Box::new(texpr_view(*rhs)),
        },
    }
}

/// The type a checked expression produces.
pub open spec fn texpr_type(e: TExprView) -> RtType {
    match e {
        TExprView::Const(_, t) => t,
        TExprView::Load(_, t) => t,
        TExprView::Neg(_, t) => t,
        TExprView::Bin { result, .. } => result,
    }
}

impl TExpr {
    pub fn ty(&self) -> (r: RtType)
        ensures
            r == texpr_type(texpr_view(*self)),
    {
        match self {
            TExpr::Const(_, t) => *t,
            TExpr::Load(_, t) => *t,
            TExpr::Neg(_, t) => *t,
            TExpr::Bin { result, .. } => *result,
        }
    }
}

// ------------------------------------------------------------------ scopes

/// One scope: names and what they stand for, oldest first.
pub type ScopeView = Seq<(Seq<char>, Binding)>;

/// The binding a scope gives a name: its latest entry for it.
pub open spec fn find_in(scope: ScopeView, name: Seq<char>) -> Option<Binding>
    decreases scope.len(),
{
    if scope.len() == 0 {
        None
    } else if scope.last().0 == name {
        Some(scope.last().1)
    } else {
        find_in(scope.drop_last(), name)
    }
}

/// The binding a name has, looked up from the innermost scope outwards.
pub open spec fn find(scopes: Seq<ScopeView>, name: Seq<char>) -> Option<Binding>
    decreases scopes.len(),
{
    if scopes.len() == 0 {
        None
    } else {
        match find_in(scopes.last(), name) {
            Some(b) => Some(b),
            None => find(scopes.drop_last(), name),
        }
    }
}

/// Every declared name, outermost scope first, each scope oldest first.
pub open spec fn all_names(scopes: Seq<ScopeView>) -> Seq<Seq<char>>
    decreases scopes.len(),
{
    if scopes.len() == 0 {
        Seq::empty()
    } else {
        all_names(scopes.drop_last()) + scopes.last().map_values(|e: (Seq<char>, Binding)| e.0)
    }
}

/// The smaller of two numbers.
pub open spec fn min_nat(a: nat, b: nat) -> nat {
    if a <= b {
        a
    } else {
        b
    }
}

/// The edit distance between two texts: the fewest single-character
/// insertions, deletions and substitutions that turn one into the other.
pub open spec fn edit_distance(a: Seq<char>, b: Seq<char>) -> nat
    decreases a.len() + b.len(),
{
    if a.len() == 0 {
        b.len()
    } else if b.len() == 0 {
        a.len()
    } else {
        let cost: nat = if a.last() == b.last() {
            0
        } else {
            1
        };
        min_nat(
            min_nat(edit_distance(a.drop_last(), b) + 1, edit_distance(a, b.drop_last()) + 1),
            edit_distance(a.drop_last(), b.drop_last()) + cost,
        )
    }
}

/// How far a name may be from a declared one and still be suggested.
pub open spec fn budget(name: Seq<char>) -> nat {
    if name.len() / 3 >= 1 {
        name.len() / 3
    } else {
        1
    }
}

/// The nearest of `names` to `name` within the budget: the first of the
/// nearest, in order, with its distance.
pub open spec fn nearest(names: Seq<Seq<char>>, name: Seq<char>) -> Option<(Seq<char>, nat)>
    decreases names.len(),
{
    if names.len() == 0 {
        None
    } else {
        let before = nearest(names.drop_last(), name);
        let k = names.last();
        let d = edit_distance(k, name);
        let better = match before {
            Some(b) => d < b.1,
            None => true,
        };
        if d <= budget(name) && better {
            Some((k, d))
        } else {
            before
        }
    }
}

/// A declared name close enough to `name` to suggest in its place.
pub open spec fn closest(scopes: Seq<ScopeView>, name: Seq<char>) -> Option<Seq<char>> {
    match nearest(all_names(scopes), name) {
        Some((k, _)) => Some(k),
        None => None,
    }
}

/// `` `(name)` ``.
pub open spec fn paren_name(name: Seq<char>) -> Seq<char> {
    "`("@ + name + ")`"@
}

/// The error for a name that is not declared, suggesting a near miss.
pub open spec fn undeclared(scopes: Seq<ScopeView>, name: Seq<char>, span: Span) -> DiagView {
    helped(
        diag(span, Rule::NamesMustBeDeclared, paren_name(name) + " is not declared"@),
        match closest(scopes, name) {
            Some(k) => "a variable named "@ + paren_name(k) + " is declared; did you mean that?"@,
            None => "declare it first, as in `var i32 (x) = '0' end`"@,
        },
    )
}

// ------------------------------------------------------------- expressions

/// Numeric types: the integers and the floats.
pub open spec fn numeric(t: RtType) -> bool {
    signed_int(t) || unsigned_int(t) || float_type(t)
}

/// An expression's type, worked out without committing to it: `None`
/// exactly when it would have to come from context, that is, when the
/// expression bottoms out in bare literals, or names nothing declared.
pub open spec fn probe(scopes: Seq<ScopeView>, e: Expr) -> Option<RtType>
    decreases e,
{
    match e {
        Expr::Literal { .. } => None,
        Expr::Escape { .. } => Some(RtType::Str),
        Expr::TypedLiteral { ty, .. } => type_named(ty.text@),
        Expr::Ident(n) => match find(scopes, n.text@) {
            Some(b) => Some(b.ty),
            None => None,
        },
        Expr::Group { inner, .. } => probe(scopes, *inner),
        Expr::Unary { operand, .. } => probe(scopes, *operand),
        Expr::Binary { op, lhs, rhs, .. } => if comparison(op) {
            Some(RtType::Bool)
        } else {
            match probe(scopes, *lhs) {
                Some(t) => Some(t),
                None => probe(scopes, *rhs),
            }
        },
    }
}

/// The first name in `e` that is not declared, as text and span.
pub open spec fn first_unresolved(scopes: Seq<ScopeView>, e: Expr) -> Option<(Seq<char>, Span)>
    decreases e,
{
    match e {
        Expr::Ident(n) => if find(scopes, n.text@) is None {
            Some((n.text@, n.span))
        } else {
            None
        },
        Expr::Group { inner, .. } => first_unresolved(scopes, *inner),
        Expr::Unary { operand, .. } => first_unresolved(scopes, *operand),
        Expr::Binary { lhs, rhs, .. } => match first_unresolved(scopes, *lhs) {
            Some(n) => Some(n),
            None => first_unresolved(scopes, *rhs),
        },
        _ => None,
    }
}

/// A literal error where the literal stands.
pub open spec fn literal_diag(span: Span, le: LitErrView) -> DiagView {
    DiagView { span, rule: le.rule, message: le.message, help: le.help }
}

/// `` `name` `` for a type.
pub open spec fn tn(t: RtType) -> Seq<char> {
    "`"@ + rt_type_name(t) + "`"@
}

/// The signed type whose width a hint suggests for an unsigned one.
pub open spec fn signed_width_hint(t: RtType) -> nat {
    match t {
        RtType::U8 => 16,
        RtType::U16 => 32,
        _ => 64,
    }
}

/// Checking `e` against the type `expected`: the checked expression, or the
/// first error met.
#[verifier::opaque]
pub open spec fn check_expr(scopes: Seq<ScopeView>, floats: Seq<FloatReading>, e: Expr, expected: RtType) -> Result<
    TExprView,
    DiagView,
>
    decreases e,
{
    match e {
        Expr::Literal { text, span } => match literal_reading(text@, expected, floats) {
            Ok(c) => Ok(TExprView::Const(c, expected)),
            Err(le) => Err(literal_diag(span, le)),
        },
        Expr::TypedLiteral { ty, text, span } => match type_named(ty.text@) {
            None => Err(diag(ty.span, Rule::TypesMustExist, "unknown type `"@ + ty.text@ + "`"@)),
            Some(declared) => if declared != expected {
                Err(
                    diag(
                        span,
                        Rule::NoImplicitConversion,
                        "expected "@ + tn(expected) + ", but this literal says "@ + tn(declared),
                    ),
                )
            } else {
                match literal_reading(text@, declared, floats) {
                    Ok(c) => Ok(TExprView::Const(c, declared)),
                    Err(le) => Err(literal_diag(span, le)),
                }
            },
        },
        Expr::Escape { text, span } => if expected != RtType::Str {
            Err(
                diag(
                    span,
                    Rule::EscapesAreText,
                    "an escape is `str`, but "@ + tn(expected) + " was expected here"@,
                ),
            )
        } else {
            Ok(TExprView::Const(ConstView::Str(text@), RtType::Str))
        },
        Expr::Ident(n) => match find(scopes, n.text@) {
            None => Err(undeclared(scopes, n.text@, n.span)),
            Some(b) => if b.ty != expected {
                Err(
                    helped(
                        diag(
                            n.span,
                            Rule::NoImplicitConversion,
                            "expected "@ + tn(expected) + ", but "@ + paren_name(n.text@) + " is "@ + tn(b.ty),
                        ),
                        "the two types must match exactly; declare it as "@ + tn(b.ty)
                            + ", or use a value that is already "@ + tn(expected),
                    ),
                )
            } else {
                Ok(TExprView::Load(b.place, b.ty))
            },
        },
        Expr::Group { inner, .. } => check_expr(scopes, floats, *inner, expected),
        Expr::Unary { operand, span, .. } => if unsigned_int(expected) {
            Err(
                helped(
                    diag(
                        span,
                        Rule::UnsignedIsNeverNegative,
                        "cannot negate a value of unsigned type "@ + tn(expected),
                    ),
                    "use a signed type such as `i"@ + decimal_chars(signed_width_hint(expected))
                        + "` if the value can be negative"@,
                ),
            )
        } else if !numeric(expected) {
            Err(diag(span, Rule::ArithmeticIsNumeric, "cannot negate a value of type "@ + tn(expected)))
        } else {
            match check_expr(scopes, floats, *operand, expected) {
                Ok(t) => Ok(TExprView::Neg(Box::new(t), expected)),
                Err(d) => Err(d),
            }
        },
        Expr::Binary { op, lhs, rhs, span } => if comparison(op) {
            if expected != RtType::Bool {
                Err(
                    diag(
                        span,
                        Rule::NoImplicitConversion,
                        "expected "@ + tn(expected) + ", but `"@ + op_text(op) + "` produces `bool`"@,
                    ),
                )
            } else {
                let side = match probe(scopes, *lhs) {
                    Some(t) => Some(t),
                    None => probe(scopes, *rhs),
                };
                match side {
                    None => {
                        let missing = match first_unresolved(scopes, *lhs) {
                            Some(n) => Some(n),
                            None => first_unresolved(scopes, *rhs),
                        };
                        match missing {
                            Some((name, at)) => Err(undeclared(scopes, name, at)),
                            None => Err(
                                helped(
                                    diag(
                                        span,
                                        Rule::LiteralsNeedAType,
                                        "cannot tell what type this comparison is over"@,
                                    ),
                                    "at least one side must be a declared name, so the literals on the other side have a type to be read as"@,
                                ),
                            ),
                        }
                    },
                    Some(t) => if ordering(op) && !(numeric(t) || t == RtType::Str) {
                        Err(
                            diag(
                                span,
                                Rule::ArithmeticIsNumeric,
                                "`"@ + op_text(op) + "` cannot order values of type "@ + tn(t),
                            ),
                        )
                    } else {
                        match check_expr(scopes, floats, *lhs, t) {
                            Err(d) => Err(d),
                            Ok(l) => match check_expr(scopes, floats, *rhs, t) {
                                Err(d) => Err(d),
                                Ok(r) => Ok(
                                    TExprView::Bin {
                                        op,
                                        operand_ty: t,
                                        result: RtType::Bool,
                                        lhs: Box::new(l),
                                        rhs: Box::new(r),
                                    },
                                ),
                            },
                        }
                    },
                }
            }
        } else if !numeric(expected) {
            Err(
                helped(
                    diag(
                        span,
                        Rule::ArithmeticIsNumeric,
                        "`"@ + op_text(op) + "` is not defined for type "@ + tn(expected),
                    ),
                    "arithmetic works on the numeric types only"@,
                ),
            )
        } else {
            match check_expr(scopes, floats, *lhs, expected) {
                Err(d) => Err(d),
                Ok(l) => match check_expr(scopes, floats, *rhs, expected) {
                    Err(d) => Err(d),
                    Ok(r) => Ok(
                        TExprView::Bin {
                            op,
                            operand_ty: expected,
                            result: expected,
                            lhs: Box::new(l),
                            rhs: Box::new(r),
                        },
                    ),
                },
            }
        },
    }
}

// -------------------------------------------------------------- statements

/// One checked condition and the statements it guards.
#[derive(Debug)]
pub struct TIfArm {
    pub cond: TExpr,
    pub body: Vec<TStmt>,
}

/// A checked statement, with the source line it came from.
#[derive(Debug)]
pub enum TStmt {
    Store { place: Place, value: TExpr, line: u32 },
    Print { items: Vec<TExpr>, line: u32 },
    If { arms: Vec<TIfArm>, else_arm: Vec<TStmt>, line: u32 },
}

/// A checked statement as plain values.
pub enum TStmtView {
    Store { place: Place, value: TExprView, line: u32 },
    Print { items: Seq<TExprView>, line: u32 },
    If { arms: Seq<(TExprView, Seq<TStmtView>)>, else_arm: Seq<TStmtView>, line: u32 },
}

pub open spec fn texprs_view(v: Seq<TExpr>) -> Seq<TExprView> {
    v.map_values(|e: TExpr| texpr_view(e))
}

pub open spec fn tstmt_view(s: TStmt) -> TStmtView
    decreases s, 1nat,
{
    match s {
        TStmt::Store { place, value, line } => TStmtView::Store { place, value: texpr_view(value), line },
        TStmt::Print { items, line } => TStmtView::Print { items: texprs_view(items@), line },
        TStmt::If { arms, else_arm, line } => TStmtView::If {
            arms: arms_view(arms@),
            else_arm: tstmts_view(else_arm@),
            line,
        },
    }
}

pub open spec fn tstmts_view(v: Seq<TStmt>) -> Seq<TStmtView>
    decreases v, 0nat,
{
    if v.len() == 0 {
        Seq::empty()
    } else {
        tstmts_view(v.subrange(0, v.len() - 1)).push(tstmt_view(v[v.len() - 1]))
    }
}

pub open spec fn arms_view(v: Seq<TIfArm>) -> Seq<(TExprView, Seq<TStmtView>)>
    decreases v, 0nat,
{
    if v.len() == 0 {
        Seq::empty()
    } else {
        arms_view(v.subrange(0, v.len() - 1)).push(
            (texpr_view(v[v.len() - 1].cond), tstmts_view(v[v.len() - 1].body@)),
        )
    }
}

/// What the checker holds between statements: the scopes, the local slots
/// and globals handed out so far, and the errors found so far.
pub struct CheckState {
    pub scopes: Seq<ScopeView>,
    pub locals: Seq<Seq<char>>,
    pub globals: Seq<(Seq<char>, RtType, bool)>,
    pub errors: Seq<DiagView>,
}

/// The 1-based line of a byte offset, as an instruction records it.
pub open spec fn line_number(src: Seq<u8>, offset: usize) -> nat {
    1 + newlines(
        src,
        if offset < src.len() {
            offset as int
        } else {
            src.len() as int
        },
    )
}

/// The error for a condition that is not `bool`.
pub open spec fn condition_error(span: Span, t: RtType) -> DiagView {
    helped(
        diag(span, Rule::ConditionsAreBool, "this condition is "@ + tn(t)),
        "compare it instead, as in `(x) != "@ + rt_type_name(t) + " '0'`"@,
    )
}

/// Checking the items of a print list: each is checked at its own type, or
/// as `str` when it has none.
#[verifier::opaque]
pub open spec fn check_items(scopes: Seq<ScopeView>, floats: Seq<FloatReading>, items: Seq<Expr>) -> Result<
    Seq<TExprView>,
    DiagView,
>
    decreases items.len(),
{
    if items.len() == 0 {
        Ok(Seq::empty())
    } else {
        match check_items(scopes, floats, items.drop_last()) {
            Err(d) => Err(d),
            Ok(done) => {
                let item = items.last();
                let ty = match probe(scopes, item) {
                    Some(t) => t,
                    None => RtType::Str,
                };
                match check_expr(scopes, floats, item, ty) {
                    Ok(t) => Ok(done.push(t)),
                    Err(d) => Err(d),
                }
            },
        }
    }
}

/// The state with one more error.
pub open spec fn with_error(st: CheckState, d: DiagView) -> CheckState {
    CheckState { errors: st.errors.push(d), ..st }
}

/// Checking one statement: the new state, and the checked statement or the
/// error that stopped it. A statement that fails leaves the state as it was.
#[verifier::opaque]
pub open spec fn check_stmt(st: CheckState, src: Seq<u8>, floats: Seq<FloatReading>, s: Stmt) -> (
    CheckState,
    Result<TStmtView, DiagView>,
)
    decreases s, 0nat,
{
    let line = line_number(src, stmt_span(s).start) as u32;
    match s {
        Stmt::Var { modifier, ty, name, value, .. } => match type_named(ty.text@) {
            None => (st, Err(diag(ty.span, Rule::TypesMustExist, "unknown type `"@ + ty.text@ + "`"@))),
            Some(declared) => match check_expr(st.scopes, floats, value, declared) {
                Err(d) => (st, Err(d)),
                Ok(v) => match find(st.scopes, name.text@) {
                    Some(prev) => (
                        st,
                        Err(
                            helped(
                                diag(
                                    name.span,
                                    Rule::NamesAreDeclaredOnce,
                                    paren_name(name.text@) + " is already declared"@,
                                ),
                                "the first declaration is on line "@ + decimal_chars(
                                    line_number(src, prev.declared_at.start),
                                ),
                            ),
                        ),
                    ),
                    None => {
                        let (place, locals, globals) = match modifier {
                            None => (Place::Local(st.locals.len() as u32), st.locals.push(name.text@), st.globals),
                            Some(m) => (
                                Place::Global(st.globals.len() as u32),
                                st.locals,
                                st.globals.push((name.text@, declared, m == Modifier::Pub)),
                            ),
                        };
                        let b = Binding { place, ty: declared, declared_at: name.span };
                        let last = st.scopes.len() - 1;
                        let scopes = st.scopes.update(last, st.scopes[last].push((name.text@, b)));
                        (
                            CheckState { scopes, locals, globals, errors: st.errors },
                            Ok(TStmtView::Store { place, value: v, line }),
                        )
                    },
                },
            },
        },
        Stmt::Assign { name, value, .. } => match find(st.scopes, name.text@) {
            None => (st, Err(undeclared(st.scopes, name.text@, name.span))),
            Some(b) => match check_expr(st.scopes, floats, value, b.ty) {
                Err(d) => (st, Err(d)),
                Ok(v) => (st, Ok(TStmtView::Store { place: b.place, value: v, line })),
            },
        },
        Stmt::Print { items, .. } => match check_items(st.scopes, floats, items@) {
            Err(d) => (st, Err(d)),
            Ok(ts) => (st, Ok(TStmtView::Print { items: ts, line })),
        },
        Stmt::If { arms, else_arm, .. } => {
            let (st1, tarms) = check_arms(st, src, floats, arms@);
            let (st2, telse) = check_block(enter(st1), src, floats, else_arm@);
            (leave(st2), Ok(TStmtView::If { arms: tarms, else_arm: telse, line }))
        },
    }
}

/// Checking the arms of an `if` in order. An arm whose condition fails is
/// reported and its body still checked, so one bad condition does not hide
/// the errors inside the arm it guards; it is left out of the result.
#[verifier::opaque]
pub open spec fn check_arms(st: CheckState, src: Seq<u8>, floats: Seq<FloatReading>, arms: Seq<
    crate::syntax::ast::IfArm,
>) -> (CheckState, Seq<(TExprView, Seq<TStmtView>)>)
    decreases arms, 0nat,
{
    if arms.len() == 0 {
        (st, Seq::empty())
    } else {
        let (st1, done) = check_arms(st, src, floats, arms.subrange(0, arms.len() - 1));
        check_arm(st1, src, floats, arms[arms.len() - 1], done)
    }
}

/// Checking one arm of an `if`, after the arms before it gave `done`.
#[verifier::opaque]
pub open spec fn check_arm(
    st: CheckState,
    src: Seq<u8>,
    floats: Seq<FloatReading>,
    arm: crate::syntax::ast::IfArm,
    done: Seq<(TExprView, Seq<TStmtView>)>,
) -> (CheckState, Seq<(TExprView, Seq<TStmtView>)>)
    decreases arm, 0nat,
{
    let cond_ty = match probe(st.scopes, arm.cond) {
        Some(t) => t,
        None => RtType::Bool,
    };
    if cond_ty != RtType::Bool {
        let st2 = with_error(st, condition_error(expr_span(arm.cond), cond_ty));
        (leave(check_block(enter(st2), src, floats, arm.body@).0), done)
    } else {
        match check_expr(st.scopes, floats, arm.cond, RtType::Bool) {
            Ok(c) => {
                let (st3, body) = check_block(enter(st), src, floats, arm.body@);
                (leave(st3), done.push((c, body)))
            },
            Err(d) => (leave(check_block(enter(with_error(st, d)), src, floats, arm.body@).0), done),
        }
    }
}

/// The state with a fresh innermost scope.
pub open spec fn enter(st: CheckState) -> CheckState {
    CheckState { scopes: st.scopes.push(Seq::empty()), ..st }
}

/// The state with its innermost scope closed.
pub open spec fn leave(st: CheckState) -> CheckState {
    CheckState { scopes: st.scopes.drop_last(), ..st }
}

/// Checking a run of statements in a scope of its own.
pub open spec fn check_scoped(st: CheckState, src: Seq<u8>, floats: Seq<FloatReading>, stmts: Seq<Stmt>) -> (
    CheckState,
    Seq<TStmtView>,
) {
    (leave(check_block(enter(st), src, floats, stmts).0), check_block(enter(st), src, floats, stmts).1)
}

/// Checking a run of statements, keeping going past any that fail so one
/// bad statement does not suppress the rest: each failure is recorded and
/// left out of the result.
#[verifier::opaque]
pub open spec fn check_block(st: CheckState, src: Seq<u8>, floats: Seq<FloatReading>, stmts: Seq<Stmt>) -> (
    CheckState,
    Seq<TStmtView>,
)
    decreases stmts, 0nat,
{
    if stmts.len() == 0 {
        (st, Seq::empty())
    } else {
        let (st1, done) = check_block(st, src, floats, stmts.subrange(0, stmts.len() - 1));
        let (st2, r) = check_stmt(st1, src, floats, stmts[stmts.len() - 1]);
        match r {
            Ok(t) => (st2, done.push(t)),
            Err(d) => (with_error(st2, d), done),
        }
    }
}

// ------------------------------------------------------------- the checker

/// A scope as plain values.
pub open spec fn scope_view(s: Vec<(String, Binding)>) -> ScopeView {
    s@.map_values(|e: (String, Binding)| (e.0@, e.1))
}

/// Scopes as plain values.
pub open spec fn scopes_view(v: Seq<Vec<(String, Binding)>>) -> Seq<ScopeView> {
    v.map_values(|s: Vec<(String, Binding)>| scope_view(s))
}

/// The edit distance is at most the two lengths together.
proof fn lemma_edit_distance_bound(a: Seq<char>, b: Seq<char>)
    ensures
        edit_distance(a, b) <= a.len() + b.len(),
    decreases a.len() + b.len(),
{
    if a.len() > 0 && b.len() > 0 {
        lemma_edit_distance_bound(a.drop_last(), b);
    }
}

/// The edit distance between two runs of characters, a row at a time.
fn distance(a: &Vec<char>, b: &Vec<char>) -> (r: u128)
    ensures
        r == edit_distance(a@, b@),
{
    let n = b.len();
    let mut prev: Vec<u128> = Vec::new();
    let mut j: usize = 0;
    while j < n
        invariant
            j <= n == b@.len(),
            prev@.len() == j,
            forall|k: int| 0 <= k < j ==> prev@[k] == edit_distance(a@.take(0), b@.take(k)),
        decreases n - j,
    {
        proof {
            assert(a@.take(0).len() == 0);
        }
        prev.push(j as u128);
        j = j + 1;
    }
    prev.push(n as u128);
    proof {
        assert(a@.take(0).len() == 0);
        assert(b@.take(n as int).len() == n);
    }
    let m = a.len();
    let mut i: usize = 0;
    while i < m
        invariant
            i <= m == a@.len(),
            n == b@.len(),
            prev@.len() == n + 1,
            forall|k: int| 0 <= k <= n ==> prev@[k] == edit_distance(a@.take(i as int), b@.take(k)),
        decreases m - i,
    {
        let ghost ai = a@.take(i + 1);
        proof {
            assert(ai.drop_last() =~= a@.take(i as int));
            assert(ai.last() == a@[i as int]);
            assert(b@.take(0).len() == 0);
        }
        let mut cur: Vec<u128> = Vec::new();
        cur.push((i + 1) as u128);
        let mut j: usize = 0;
        while j < n
            invariant
                i < m == a@.len(),
                n == b@.len(),
                j <= n,
                ai == a@.take(i + 1),
                ai.drop_last() == a@.take(i as int),
                ai.last() == a@[i as int],
                prev@.len() == n + 1,
                forall|k: int| 0 <= k <= n ==> prev@[k] == edit_distance(a@.take(i as int), b@.take(k)),
                cur@.len() == j + 1,
                forall|k: int| 0 <= k <= j ==> cur@[k] == edit_distance(ai, b@.take(k)),
            decreases n - j,
        {
            let ghost bj = b@.take(j + 1);
            proof {
                assert(bj.drop_last() =~= b@.take(j as int));
                assert(bj.last() == b@[j as int]);
                lemma_edit_distance_bound(a@.take(i as int), bj);
                lemma_edit_distance_bound(ai, b@.take(j as int));
                lemma_edit_distance_bound(a@.take(i as int), b@.take(j as int));
            }
            let cost: u128 = if a[i] == b[j] {
                0
            } else {
                1
            };
            let del = prev[j + 1] + 1;
            let ins = cur[j] + 1;
            let sub = prev[j] + cost;
            let best = if del <= ins {
                del
            } else {
                ins
            };
            let best = if best <= sub {
                best
            } else {
                sub
            };
            cur.push(best);
            j = j + 1;
        }
        prev = cur;
        i = i + 1;
    }
    proof {
        assert(a@.take(m as int) =~= a@);
        assert(b@.take(n as int) =~= b@);
    }
    prev[n]
}

/// `` `name` `` of a type, appended.
fn push_tn(out: &mut String, t: RtType)
    ensures
        final(out)@ == old(out)@ + tn(t),
{
    out.append("`");
    out.append(t.name());
    out.append("`");
    proof {
        assert(final(out)@ =~= old(out)@ + tn(t));
    }
}

/// `` `(name)` ``, appended.
fn push_paren_name(out: &mut String, name: &str)
    ensures
        final(out)@ == old(out)@ + paren_name(name@),
{
    out.append("`(");
    out.append(name);
    out.append(")`");
    proof {
        assert(final(out)@ =~= old(out)@ + paren_name(name@));
    }
}

/// The checker's state while it walks a program.
struct Checker<'a> {
    src: &'a str,
    floats: &'a [FloatReading],
    /// Innermost scope last. A block pushes one and pops it on the way out,
    /// so a name declared inside an `if` is gone afterwards.
    scopes: Vec<Vec<(String, Binding)>>,
    locals: Vec<String>,
    globals: Vec<(String, RtType, bool)>,
    errors: Vec<Diagnostic>,
}

impl<'a> Checker<'a> {
    spec fn sv(&self) -> Seq<ScopeView> {
        scopes_view(self.scopes@)
    }

    /// Look a name up from the innermost scope outwards.
    fn find(&self, name: &str) -> (r: Option<Binding>)
        ensures
            r == find(self.sv(), name@),
    {
        let ghost sv = self.sv();
        let mut i = self.scopes.len();
        proof {
            assert(sv.take(i as int) =~= sv);
        }
        while i > 0
            invariant
                i <= self.scopes@.len(),
                sv == self.sv(),
                find(sv, name@) == find(sv.take(i as int), name@),
            decreases i,
        {
            let scope = &self.scopes[i - 1];
            let ghost scv = scope_view(*scope);
            proof {
                assert(sv.take(i as int).last() == scv);
                assert(sv.take(i as int).drop_last() =~= sv.take(i - 1));
            }
            let mut k = scope.len();
            proof {
                assert(scv.take(k as int) =~= scv);
            }
            while k > 0
                invariant
                    k <= scope@.len(),
                    scv == scope_view(*scope),
                    find_in(scv, name@) == find_in(scv.take(k as int), name@),
                    0 < i <= sv.len(),
                    sv == self.sv(),
                    find(sv, name@) == find(sv.take(i as int), name@),
                    sv.take(i as int).last() == scv,
                decreases k,
            {
                proof {
                    assert(scv.take(k as int).drop_last() =~= scv.take(k - 1));
                    assert(scv.take(k as int).last() == (scope@[k - 1].0@, scope@[k - 1].1));
                }
                if str_eq(scope[k - 1].0.as_str(), name) {
                    proof {
                        assert(find_in(scv, name@) == Some(scope@[k - 1].1));
                        assert(sv.take(i as int).len() > 0);
                    }
                    return Some(scope[k - 1].1);
                }
                k = k - 1;
            }
            i = i - 1;
        }
        None
    }

    /// The nearest declared name within a small edit distance, for "did
    /// you mean".
    fn closest(&self, name: &str) -> (r: Option<String>)
        ensures
            match closest(self.sv(), name@) {
                Some(k) => r matches Some(x) && x@ == k,
                None => r is None,
            },
    {
        let target = chars_of(name);
        let count = target.len();
        let limit: u128 = if count / 3 >= 1 {
            (count / 3) as u128
        } else {
            1
        };
        let ghost sv = self.sv();
        let mut best: Option<(String, u128)> = None;
        let mut i: usize = 0;
        proof {
            assert(sv.take(0) =~= Seq::<ScopeView>::empty());
            assert(all_names(Seq::<ScopeView>::empty()) =~= Seq::<Seq<char>>::empty());
        }
        while i < self.scopes.len()
            invariant
                i <= self.scopes@.len(),
                sv == self.sv(),
                target@ == name@,
                limit == budget(name@),
                match nearest(all_names(sv.take(i as int)), name@) {
                    Some((k, d)) => best matches Some(x) && x.0@ == k && x.1 == d,
                    None => best is None,
                },
            decreases self.scopes@.len() - i,
        {
            let scope = &self.scopes[i];
            let ghost scv = scope_view(*scope);
            let ghost before = all_names(sv.take(i as int));
            proof {
                assert(sv.take(i + 1).drop_last() =~= sv.take(i as int));
                assert(sv.take(i + 1).last() == scv);
            }
            let mut k: usize = 0;
            proof {
                assert(before + scv.take(0).map_values(|e: (Seq<char>, Binding)| e.0) =~= before);
            }
            while k < scope.len()
                invariant
                    k <= scope@.len(),
                    scv == scope_view(*scope),
                    target@ == name@,
                    limit == budget(name@),
                    match nearest(before + scv.take(k as int).map_values(|e: (Seq<char>, Binding)| e.0), name@) {
                        Some((kk, d)) => best matches Some(x) && x.0@ == kk && x.1 == d,
                        None => best is None,
                    },
                decreases scope@.len() - k,
            {
                let ghost names = before + scv.take(k + 1).map_values(|e: (Seq<char>, Binding)| e.0);
                proof {
                    assert(names.drop_last() =~= before + scv.take(k as int).map_values(
                        |e: (Seq<char>, Binding)| e.0,
                    ));
                    assert(names.last() == scope@[k as int].0@);
                }
                let cand = chars_of(scope[k].0.as_str());
                let d = distance(&cand, &target);
                let better = match &best {
                    Some(b) => d < b.1,
                    None => true,
                };
                if d <= limit && better {
                    best = Some((scope[k].0.clone(), d));
                }
                k = k + 1;
            }
            proof {
                assert(scv.take(scope@.len() as int) =~= scv);
                assert(scv.map_values(|e: (Seq<char>, Binding)| e.0) == sv.take(i + 1).last().map_values(
                    |e: (Seq<char>, Binding)| e.0,
                ));
            }
            i = i + 1;
        }
        proof {
            assert(sv.take(self.scopes@.len() as int) =~= sv);
        }
        match best {
            Some((k, _)) => Some(k),
            None => None,
        }
    }

    /// The error for a name that is not declared.
    fn undeclared_error(&self, name: &str, span: Span) -> (r: Diagnostic)
        ensures
            r@ == undeclared(self.sv(), name@, span),
    {
        let mut m = String::new();
        push_paren_name(&mut m, name);
        m.append(" is not declared");
        let mut h = String::new();
        match self.closest(name) {
            Some(k) => {
                h.append("a variable named ");
                push_paren_name(&mut h, k.as_str());
                h.append(" is declared; did you mean that?");
            },
            None => {
                h.append("declare it first, as in `var i32 (x) = '0' end`");
            },
        }
        proof {
            assert(m@ =~= paren_name(name@) + " is not declared"@);
            match closest(self.sv(), name@) {
                Some(k) => {
                    assert(h@ =~= "a variable named "@ + paren_name(k) + " is declared; did you mean that?"@);
                },
                None => {},
            }
        }
        Diagnostic::new(span, Rule::NamesMustBeDeclared, m).with_help(h)
    }

    fn lookup(&self, name: &str, span: Span) -> (r: Result<Binding, Diagnostic>)
        ensures
            match find(self.sv(), name@) {
                Some(b) => r == Ok::<Binding, Diagnostic>(b),
                None => r matches Err(d) && d@ == undeclared(self.sv(), name@, span),
            },
    {
        match self.find(name) {
            Some(b) => Ok(b),
            None => Err(self.undeclared_error(name, span)),
        }
    }

    /// Work out an expression's type without committing to it.
    fn probe(&self, e: &Expr) -> (r: Option<RtType>)
        ensures
            r == probe(self.sv(), *e),
        decreases e,
    {
        match e {
            Expr::Literal { .. } => None,
            Expr::Escape { .. } => Some(RtType::Str),
            Expr::TypedLiteral { ty, .. } => {
                let r = RtType::from_name(ty.text.as_str());
                proof {
                    lemma_from_name(ty.text@, r);
                }
                r
            },
            Expr::Ident(n) => match self.find(n.text.as_str()) {
                Some(b) => Some(b.ty),
                None => None,
            },
            Expr::Group { inner, .. } => self.probe(inner),
            Expr::Unary { operand, .. } => self.probe(operand),
            Expr::Binary { op, lhs, rhs, .. } => {
                if op.is_comparison() {
                    Some(RtType::Bool)
                } else {
                    match self.probe(lhs) {
                        Some(t) => Some(t),
                        None => self.probe(rhs),
                    }
                }
            },
        }
    }

    /// The first name in `e` that is not declared, if any.
    ///
    /// `probe` gives `None` both for a bare literal and for an unknown name.
    /// Those deserve very different messages, so the error paths ask this
    /// first.
    fn first_unresolved<'e>(&self, e: &'e Expr) -> (r: Option<&'e Name>)
        ensures
            match first_unresolved(self.sv(), *e) {
                Some((t, sp)) => r matches Some(n) && n.text@ == t && n.span == sp,
                None => r is None,
            },
        decreases e,
    {
        match e {
            Expr::Ident(n) => {
                if self.find(n.text.as_str()).is_none() {
                    Some(n)
                } else {
                    None
                }
            },
            Expr::Group { inner, .. } => self.first_unresolved(inner),
            Expr::Unary { operand, .. } => self.first_unresolved(operand),
            Expr::Binary { lhs, rhs, .. } => match self.first_unresolved(lhs) {
                Some(n) => Some(n),
                None => self.first_unresolved(rhs),
            },
            _ => None,
        }
    }

    /// A literal read as `ty`, or the error where it stands.
    fn read_literal(&self, text: &String, ty: RtType, span: Span) -> (r: Result<TExpr, Diagnostic>)
        ensures
            match literal_reading(text@, ty, self.floats@) {
                Ok(c) => r matches Ok(x) && texpr_view(x) == TExprView::Const(c, ty),
                Err(le) => r matches Err(d) && d@ == literal_diag(span, le),
            },
    {
        match parse(text.as_str(), ty, self.floats) {
            Ok(c) => Ok(TExpr::Const(c, ty)),
            Err(le) => Err(Diagnostic { span, rule: le.rule, message: le.message, help: le.help }),
        }
    }

    /// Check `e` against the type `expected`.
    #[verifier::rlimit(40)]
    fn check(&self, e: &Expr, expected: RtType) -> (r: Result<TExpr, Diagnostic>)
        ensures
            match check_expr(self.sv(), self.floats@, *e, expected) {
                Ok(t) => r matches Ok(x) && texpr_view(x) == t,
                Err(d) => r matches Err(x) && x@ == d,
            },
        decreases e, 1nat,
    {
        proof {
            reveal(check_expr);
        }
        match e {
            Expr::Literal { text, span } => self.read_literal(text, expected, *span),
            Expr::TypedLiteral { ty, text, span } => {
                let named = RtType::from_name(ty.text.as_str());
                proof {
                    lemma_from_name(ty.text@, named);
                }
                let declared = match named {
                    Some(t) => t,
                    None => {
                        let mut m = String::new();
                        m.append("unknown type `");
                        m.append(ty.text.as_str());
                        m.append("`");
                        proof {
                            assert(m@ =~= "unknown type `"@ + ty.text@ + "`"@);
                        }
                        return Err(Diagnostic::new(ty.span, Rule::TypesMustExist, m));
                    },
                };
                if declared != expected {
                    let mut m = String::new();
                    m.append("expected ");
                    push_tn(&mut m, expected);
                    m.append(", but this literal says ");
                    push_tn(&mut m, declared);
                    proof {
                        assert(m@ =~= "expected "@ + tn(expected) + ", but this literal says "@ + tn(declared));
                    }
                    return Err(Diagnostic::new(*span, Rule::NoImplicitConversion, m));
                }
                self.read_literal(text, declared, *span)
            },
            Expr::Escape { text, span } => {
                if expected != RtType::Str {
                    let mut m = String::new();
                    m.append("an escape is `str`, but ");
                    push_tn(&mut m, expected);
                    m.append(" was expected here");
                    proof {
                        assert(m@ =~= "an escape is `str`, but "@ + tn(expected) + " was expected here"@);
                    }
                    return Err(Diagnostic::new(*span, Rule::EscapesAreText, m));
                }
                Ok(TExpr::Const(Const::Str(text.clone()), RtType::Str))
            },
            Expr::Ident(n) => {
                let b = match self.lookup(n.text.as_str(), n.span) {
                    Ok(b) => b,
                    Err(d) => return Err(d),
                };
                if b.ty != expected {
                    let mut m = String::new();
                    m.append("expected ");
                    push_tn(&mut m, expected);
                    m.append(", but ");
                    push_paren_name(&mut m, n.text.as_str());
                    m.append(" is ");
                    push_tn(&mut m, b.ty);
                    let mut h = String::new();
                    h.append("the two types must match exactly; declare it as ");
                    push_tn(&mut h, b.ty);
                    h.append(", or use a value that is already ");
                    push_tn(&mut h, expected);
                    proof {
                        assert(m@ =~= "expected "@ + tn(expected) + ", but "@ + paren_name(n.text@) + " is "@ + tn(
                            b.ty,
                        ));
                        assert(h@ =~= "the two types must match exactly; declare it as "@ + tn(b.ty)
                            + ", or use a value that is already "@ + tn(expected));
                    }
                    return Err(Diagnostic::new(n.span, Rule::NoImplicitConversion, m).with_help(h));
                }
                Ok(TExpr::Load(b.place, b.ty))
            },
            Expr::Group { inner, .. } => self.check(inner, expected),
            Expr::Unary { op: UnOp::Neg, operand, span } => {
                if expected.is_unsigned_int() {
                    let mut m = String::new();
                    m.append("cannot negate a value of unsigned type ");
                    push_tn(&mut m, expected);
                    let mut h = String::new();
                    h.append("use a signed type such as `i");
                    let hint: u128 = match expected {
                        RtType::U8 => 16,
                        RtType::U16 => 32,
                        _ => 64,
                    };
                    push_decimal(&mut h, hint);
                    h.append("` if the value can be negative");
                    proof {
                        assert(m@ =~= "cannot negate a value of unsigned type "@ + tn(expected));
                        assert(h@ =~= "use a signed type such as `i"@ + decimal_chars(signed_width_hint(expected))
                            + "` if the value can be negative"@);
                    }
                    return Err(Diagnostic::new(*span, Rule::UnsignedIsNeverNegative, m).with_help(h));
                }
                if !expected.is_numeric() {
                    let mut m = String::new();
                    m.append("cannot negate a value of type ");
                    push_tn(&mut m, expected);
                    proof {
                        assert(m@ =~= "cannot negate a value of type "@ + tn(expected));
                    }
                    return Err(Diagnostic::new(*span, Rule::ArithmeticIsNumeric, m));
                }
                match self.check(operand, expected) {
                    Ok(inner) => Ok(TExpr::Neg(Box::new(inner), expected)),
                    Err(d) => Err(d),
                }
            },
            Expr::Binary { op, lhs, rhs, span } => {
                if op.is_comparison() {
                    self.check_comparison(e, expected)
                } else {
                    if !expected.is_numeric() {
                        let mut m = String::new();
                        m.append("`");
                        m.append(op.as_str());
                        m.append("` is not defined for type ");
                        push_tn(&mut m, expected);
                        let mut h = String::new();
                        h.append("arithmetic works on the numeric types only");
                        proof {
                            assert(m@ =~= "`"@ + op_text(*op) + "` is not defined for type "@ + tn(expected));
                        }
                        return Err(Diagnostic::new(*span, Rule::ArithmeticIsNumeric, m).with_help(h));
                    }
                    let l = match self.check(lhs, expected) {
                        Ok(l) => l,
                        Err(d) => return Err(d),
                    };
                    let r = match self.check(rhs, expected) {
                        Ok(r) => r,
                        Err(d) => return Err(d),
                    };
                    Ok(TExpr::Bin { op: *op, operand_ty: expected, result: expected, lhs: Box::new(l), rhs: Box::new(r) })
                }
            },
        }
    }

    /// Check a comparison, which produces `bool` whatever it compares.
    fn check_comparison(&self, e: &Expr, expected: RtType) -> (r: Result<TExpr, Diagnostic>)
        requires
            *e matches Expr::Binary { op, .. } && comparison(op),
        ensures
            match check_expr(self.sv(), self.floats@, *e, expected) {
                Ok(t) => r matches Ok(x) && texpr_view(x) == t,
                Err(d) => r matches Err(x) && x@ == d,
            },
        decreases e, 0nat,
    {
        proof {
            reveal(check_expr);
        }
        let (op, lhs, rhs, span) = match e {
            Expr::Binary { op, lhs, rhs, span } => (*op, lhs, rhs, *span),
            _ => {
                proof {
                    assert(false);
                }
                return Err(Diagnostic::new(Span::new(0, 0), Rule::StatementForm, String::new()));
            },
        };
        if expected != RtType::Bool {
            let mut m = String::new();
            m.append("expected ");
            push_tn(&mut m, expected);
            m.append(", but `");
            m.append(op.as_str());
            m.append("` produces `bool`");
            proof {
                assert(m@ =~= "expected "@ + tn(expected) + ", but `"@ + op_text(op) + "` produces `bool`"@);
            }
            return Err(Diagnostic::new(span, Rule::NoImplicitConversion, m));
        }
        let side = match self.probe(lhs) {
            Some(t) => Some(t),
            None => self.probe(rhs),
        };
        let operand_ty = match side {
            Some(t) => t,
            None => {
                let missing = match self.first_unresolved(lhs) {
                    Some(n) => Some(n),
                    None => self.first_unresolved(rhs),
                };
                match missing {
                    Some(n) => {
                        return Err(self.undeclared_error(n.text.as_str(), n.span));
                    },
                    None => {
                        let mut m = String::new();
                        m.append("cannot tell what type this comparison is over");
                        let mut h = String::new();
                        h.append(
                            "at least one side must be a declared name, so the literals on the other side have a type to be read as",
                        );
                        return Err(Diagnostic::new(span, Rule::LiteralsNeedAType, m).with_help(h));
                    },
                }
            },
        };
        let orders = matches!(op, BinOp::Lt | BinOp::Le | BinOp::Gt | BinOp::Ge);
        if orders && !(operand_ty.is_numeric() || operand_ty == RtType::Str) {
            let mut m = String::new();
            m.append("`");
            m.append(op.as_str());
            m.append("` cannot order values of type ");
            push_tn(&mut m, operand_ty);
            proof {
                assert(m@ =~= "`"@ + op_text(op) + "` cannot order values of type "@ + tn(operand_ty));
            }
            return Err(Diagnostic::new(span, Rule::ArithmeticIsNumeric, m));
        }
        let l = match self.check(lhs, operand_ty) {
            Ok(l) => l,
            Err(d) => return Err(d),
        };
        let r = match self.check(rhs, operand_ty) {
            Ok(r) => r,
            Err(d) => return Err(d),
        };
        Ok(TExpr::Bin { op, operand_ty, result: RtType::Bool, lhs: Box::new(l), rhs: Box::new(r) })
    }

    spec fn state(&self) -> CheckState {
        CheckState {
            scopes: self.sv(),
            locals: self.locals@.map_values(|n: String| n@),
            globals: self.globals@.map_values(|g: (String, RtType, bool)| (g.0@, g.1, g.2)),
            errors: self.errors@.map_values(|d: Diagnostic| d@),
        }
    }

    spec fn wf(&self) -> bool {
        &&& self.scopes@.len() >= 1
        &&& self.src.spec_bytes().len() < usize::MAX
    }

    /// The line a byte offset is on.
    fn line(&self, offset: usize) -> (r: u32)
        requires
            self.wf(),
        ensures
            r == line_number(self.src.spec_bytes(), offset) as u32,
    {
        line_of(self.src, offset) as u32
    }

    /// Check one statement.
    fn stmt(&mut self, s: &Stmt) -> (r: Result<TStmt, Diagnostic>)
        requires
            old(self).wf(),
        ensures
            final(self).wf(),
            final(self).src == old(self).src,
            final(self).floats == old(self).floats,
            final(self).scopes@.len() == old(self).scopes@.len(),
            final(self).state() == check_stmt(old(self).state(), old(self).src.spec_bytes(), old(self).floats@, *s).0,
            match check_stmt(old(self).state(), old(self).src.spec_bytes(), old(self).floats@, *s).1 {
                Ok(t) => r matches Ok(x) && tstmt_view(x) == t,
                Err(d) => r matches Err(x) && x@ == d,
            },
        decreases *s, 1nat,
    {
        match s {
            Stmt::Var { .. } => self.var_stmt(s),
            Stmt::Assign { .. } => self.assign_stmt(s),
            Stmt::Print { .. } => {
                proof {
                    reveal(check_stmt);
                    reveal(check_block);
                    reveal(check_arms);
                    reveal(check_arm);
                }
                self.print_stmt(s)
            },
            Stmt::If { .. } => self.if_stmt(s),
        }
    }

    /// Check an assignment.
    fn assign_stmt(&mut self, s: &Stmt) -> (r: Result<TStmt, Diagnostic>)
        requires
            old(self).wf(),
            *s is Assign,
        ensures
            final(self).wf(),
            final(self).src == old(self).src,
            final(self).floats == old(self).floats,
            final(self).scopes@.len() == old(self).scopes@.len(),
            final(self).state() == check_stmt(old(self).state(), old(self).src.spec_bytes(), old(self).floats@, *s).0,
            match check_stmt(old(self).state(), old(self).src.spec_bytes(), old(self).floats@, *s).1 {
                Ok(t) => r matches Ok(x) && tstmt_view(x) == t,
                Err(d) => r matches Err(x) && x@ == d,
            },
    {
        proof {
            reveal(check_stmt);
            reveal(check_block);
            reveal(check_arms);
            reveal(check_arm);
        }
        let (name, value, span) = match s {
            Stmt::Assign { name, value, span } => (name, value, span),
            _ => {
                proof {
                    assert(false);
                }
                return Err(Diagnostic::new(Span::new(0, 0), Rule::StatementForm, String::new()));
            },
        };
        let b = match self.lookup(name.text.as_str(), name.span) {
            Ok(b) => b,
            Err(d) => return Err(d),
        };
        let v = match self.check(value, b.ty) {
            Ok(v) => v,
            Err(d) => return Err(d),
        };
        let line = self.line(span.start);
        Ok(TStmt::Store { place: b.place, value: v, line })
    }

    /// Check a print list.
    fn print_stmt(&self, s: &Stmt) -> (r: Result<TStmt, Diagnostic>)
        requires
            self.wf(),
            *s is Print,
        ensures
            match check_stmt(self.state(), self.src.spec_bytes(), self.floats@, *s).1 {
                Ok(t) => r matches Ok(x) && tstmt_view(x) == t,
                Err(d) => r matches Err(x) && x@ == d,
            },
    {
        proof {
            reveal(check_stmt);
            reveal(check_block);
            reveal(check_arms);
            reveal(check_arm);
        }
        let (items, span) = match s {
            Stmt::Print { items, span } => (items, span),
            _ => {
                proof {
                    assert(false);
                }
                return Err(Diagnostic::new(Span::new(0, 0), Rule::StatementForm, String::new()));
            },
        };
        let mut checked: Vec<TExpr> = Vec::new();
        let mut i: usize = 0;
        proof {
            reveal(check_items);
            assert(items@.take(0) =~= Seq::<Expr>::empty());
            assert(texprs_view(checked@) =~= Seq::<TExprView>::empty());
        }
        while i < items.len()
            invariant
                i <= items@.len(),
                self.wf(),
                *s == (Stmt::Print { items: *items, span: *span }),
                check_items(self.sv(), self.floats@, items@.take(i as int)) == Ok::<Seq<TExprView>, DiagView>(
                    texprs_view(checked@),
                ),
            decreases items@.len() - i,
        {
            proof {
                reveal(check_items);
                assert(items@.take(i + 1).drop_last() =~= items@.take(i as int));
                assert(items@.take(i + 1).last() == items@[i as int]);
            }
            // Everything printed is stringified, so a bare literal in a print
            // list needs no annotation: it is simply text. This is the one
            // place a value is converted without being told to.
            let ty = match self.probe(&items[i]) {
                Some(t) => t,
                None => RtType::Str,
            };
            let ghost before = checked@;
            match self.check(&items[i], ty) {
                Ok(t) => {
                    checked.push(t);
                    proof {
                        assert(checked@.drop_last() =~= before);
                        assert(texprs_view(checked@) =~= texprs_view(before).push(texpr_view(t)));
                    }
                },
                Err(d) => {
                    proof {
                        lemma_items_fail(self.sv(), self.floats@, items@, i as int);
                        reveal(check_stmt);
                        reveal(check_block);
                        reveal(check_arms);
                        reveal(check_arm);
                    }
                    return Err(d);
                },
            }
            i = i + 1;
        }
        proof {
            assert(items@.take(items@.len() as int) =~= items@);
        }
        let line = self.line(span.start);
        Ok(TStmt::Print { items: checked, line })
    }

    /// Check an `if`, arm by arm.
    fn if_stmt(&mut self, s: &Stmt) -> (r: Result<TStmt, Diagnostic>)
        requires
            old(self).wf(),
            *s is If,
        ensures
            final(self).wf(),
            final(self).src == old(self).src,
            final(self).floats == old(self).floats,
            final(self).scopes@.len() == old(self).scopes@.len(),
            final(self).state() == check_stmt(old(self).state(), old(self).src.spec_bytes(), old(self).floats@, *s).0,
            match check_stmt(old(self).state(), old(self).src.spec_bytes(), old(self).floats@, *s).1 {
                Ok(t) => r matches Ok(x) && tstmt_view(x) == t,
                Err(d) => r matches Err(x) && x@ == d,
            },
        decreases *s, 0nat,
    {
        proof {
            reveal(check_stmt);
            reveal(check_block);
            reveal(check_arms);
            reveal(check_arm);
        }
        let Stmt::If { arms, else_arm, span } = s else {
            proof {
                assert(false);
            }
            return Err(Diagnostic::new(Span::new(0, 0), Rule::StatementForm, String::new()));
        };
        let ghost st0 = self.state();
        let mut checked: Vec<TIfArm> = Vec::new();
        let mut i: usize = 0;
        proof {
            assert(arms@.subrange(0, 0) =~= Seq::<crate::syntax::ast::IfArm>::empty());
        }
        while i < arms.len()
            invariant
                i <= arms@.len(),
                *s == (Stmt::If { arms: *arms, else_arm: *else_arm, span: *span }),
                self.wf(),
                self.src == old(self).src,
                self.floats == old(self).floats,
                self.scopes@.len() == old(self).scopes@.len(),
                st0 == old(self).state(),
                check_arms(st0, self.src.spec_bytes(), self.floats@, arms@.subrange(0, i as int)).0
                    == self.state(),
                check_arms(st0, self.src.spec_bytes(), self.floats@, arms@.subrange(0, i as int)).1
                    == arms_view(checked@),
            decreases arms@.len() - i,
        {
            let arm = &arms[i];
            proof {
                reveal(check_stmt);
                reveal(check_block);
                reveal(check_arms);
                reveal(check_arm);
                assert(arms@.subrange(0, i + 1).subrange(0, i as int) =~= arms@.subrange(0, i as int));
                assert(arms@.subrange(0, i + 1)[i as int] == *arm);
                assert(decreases_to!(*s => (*s)->arms));
                assert((*s)->arms == *arms);
                assert(decreases_to!(*arms => arms@));
                assert(decreases_to!(arms@ => arms@[i as int]));
                assert(decreases_to!(arms@[i as int] => arms@[i as int].body));
                assert(decreases_to!(arms@[i as int].body => arms@[i as int].body@));
            }
            self.if_arm(arm, &mut checked);
            i = i + 1;
        }
        proof {
            assert(arms@.subrange(0, arms@.len() as int) =~= arms@);
            assert(decreases_to!(*s => (*s)->else_arm));
            assert((*s)->else_arm == *else_arm);
            assert(decreases_to!(*else_arm => else_arm@));
        }
        let else_checked = self.scoped(else_arm);
        let line = self.line(span.start);
        Ok(TStmt::If { arms: checked, else_arm: else_checked, line })
    }

    /// Check one arm of an `if`: its condition, then its body in a scope of
    /// its own.
    fn if_arm(&mut self, arm: &crate::syntax::ast::IfArm, checked: &mut Vec<TIfArm>)
        requires
            old(self).wf(),
        ensures
            final(self).wf(),
            final(self).src == old(self).src,
            final(self).floats == old(self).floats,
            final(self).scopes@.len() == old(self).scopes@.len(),
            final(self).state() == check_arm(
                old(self).state(),
                old(self).src.spec_bytes(),
                old(self).floats@,
                *arm,
                arms_view(old(checked)@),
            ).0,
            arms_view(final(checked)@) == check_arm(
                old(self).state(),
                old(self).src.spec_bytes(),
                old(self).floats@,
                *arm,
                arms_view(old(checked)@),
            ).1,
        decreases *arm, 0nat,
    {
        proof {
            reveal(check_stmt);
            reveal(check_block);
            reveal(check_arms);
            reveal(check_arm);
        }
        proof {
            assert(decreases_to!(*arm => arm.body));
            assert(decreases_to!(arm.body => arm.body@));
        }
        // No truthiness: the condition is a bool or it is an error.
        let cond_ty = match self.probe(&arm.cond) {
            Some(t) => t,
            None => RtType::Bool,
        };
        if cond_ty != RtType::Bool {
            let mut m = String::new();
            m.append("this condition is ");
            push_tn(&mut m, cond_ty);
            let mut h = String::new();
            h.append("compare it instead, as in `(x) != ");
            h.append(cond_ty.name());
            h.append(" '0'`");
            proof {
                assert(m@ =~= "this condition is "@ + tn(cond_ty));
                assert(h@ =~= "compare it instead, as in `(x) != "@ + rt_type_name(cond_ty) + " '0'`"@);
            }
            let d = Diagnostic::new(arm.cond.span(), Rule::ConditionsAreBool, m).with_help(h);
            self.report(d);
            // Keep checking the body, so one bad condition does not hide
            // every error inside the arm it guards.
            let _ = self.scoped(&arm.body);
        } else {
            match self.check(&arm.cond, RtType::Bool) {
                Ok(cond) => {
                    let body = self.scoped(&arm.body);
                    let ghost before = checked@;
                    checked.push(TIfArm { cond, body });
                    proof {
                        assert(checked@.subrange(0, checked@.len() - 1) =~= before);
                    }
                },
                Err(d) => {
                    self.report(d);
                    let _ = self.scoped(&arm.body);
                },
            }
        }
    }

    /// Record an error and keep going.
    fn report(&mut self, d: Diagnostic)
        ensures
            final(self).state() == with_error(old(self).state(), d@),
            final(self).src == old(self).src,
            final(self).floats == old(self).floats,
            final(self).scopes == old(self).scopes,
    {
        self.errors.push(d);
        proof {
            assert(self.errors@.map_values(|e: Diagnostic| e@) =~= old(self).errors@.map_values(
                |e: Diagnostic| e@,
            ).push(d@));
        }
    }

    /// Check a declaration.
    fn var_stmt(&mut self, s: &Stmt) -> (r: Result<TStmt, Diagnostic>)
        requires
            old(self).wf(),
            *s is Var,
        ensures
            final(self).wf(),
            final(self).src == old(self).src,
            final(self).floats == old(self).floats,
            final(self).scopes@.len() == old(self).scopes@.len(),
            final(self).state() == check_stmt(old(self).state(), old(self).src.spec_bytes(), old(self).floats@, *s).0,
            match check_stmt(old(self).state(), old(self).src.spec_bytes(), old(self).floats@, *s).1 {
                Ok(t) => r matches Ok(x) && tstmt_view(x) == t,
                Err(d) => r matches Err(x) && x@ == d,
            },
    {
        proof {
            reveal(check_stmt);
            reveal(check_block);
            reveal(check_arms);
            reveal(check_arm);
        }
        let (modifier, ty, name, value, span) = match s {
            Stmt::Var { modifier, ty, name, value, span } => (modifier, ty, name, value, span),
            _ => {
                proof {
                    assert(false);
                }
                return Err(Diagnostic::new(Span::new(0, 0), Rule::StatementForm, String::new()));
            },
        };
        let named = RtType::from_name(ty.text.as_str());
        proof {
            lemma_from_name(ty.text@, named);
        }
        let declared = match named {
            Some(t) => t,
            None => {
                let mut m = String::new();
                m.append("unknown type `");
                m.append(ty.text.as_str());
                m.append("`");
                proof {
                    assert(m@ =~= "unknown type `"@ + ty.text@ + "`"@);
                }
                return Err(Diagnostic::new(ty.span, Rule::TypesMustExist, m));
            },
        };
        // The initialiser is checked before the name is bound, so a
        // declaration cannot refer to the variable it is defining.
        let v = match self.check(value, declared) {
            Ok(v) => v,
            Err(d) => return Err(d),
        };
        if let Some(prev) = self.find(name.text.as_str()) {
            let line = line_of(self.src, prev.declared_at.start);
            let mut m = String::new();
            push_paren_name(&mut m, name.text.as_str());
            m.append(" is already declared");
            let mut h = String::new();
            h.append("the first declaration is on line ");
            push_decimal(&mut h, line as u128);
            proof {
                assert(m@ =~= paren_name(name.text@) + " is already declared"@);
                assert(h@ =~= "the first declaration is on line "@ + decimal_chars(
                    line_number(self.src.spec_bytes(), prev.declared_at.start),
                ));
            }
            return Err(Diagnostic::new(name.span, Rule::NamesAreDeclaredOnce, m).with_help(h));
        }
        let ghost st = self.state();
        let place = match modifier {
            None => {
                let slot = self.locals.len() as u32;
                self.locals.push(name.text.clone());
                proof {
                    assert(self.locals@.map_values(|n: String| n@) =~= st.locals.push(name.text@));
                }
                Place::Local(slot)
            },
            Some(m) => {
                let idx = self.globals.len() as u32;
                let exported = *m == Modifier::Pub;
                self.globals.push((name.text.clone(), declared, exported));
                proof {
                    assert(self.globals@.map_values(|g: (String, RtType, bool)| (g.0@, g.1, g.2)) =~= st.globals.push(
                        (name.text@, declared, exported),
                    ));
                }
                Place::Global(idx)
            },
        };
        let b = Binding { place, ty: declared, declared_at: name.span };
        let mut top = match self.scopes.pop() {
            Some(t) => t,
            None => Vec::new(),
        };
        top.push((name.text.clone(), b));
        self.scopes.push(top);
        proof {
            let last = st.scopes.len() - 1;
            assert(scope_view(top) =~= st.scopes[last].push((name.text@, b)));
            assert(self.sv() =~= st.scopes.update(last, st.scopes[last].push((name.text@, b))));
        }
        let line = self.line(span.start);
        Ok(TStmt::Store { place, value: v, line })
    }

    /// Check a run of statements in a scope of its own.
    fn scoped(&mut self, stmts: &Vec<Stmt>) -> (r: Vec<TStmt>)
        requires
            old(self).wf(),
        ensures
            final(self).wf(),
            final(self).src == old(self).src,
            final(self).floats == old(self).floats,
            final(self).scopes@.len() == old(self).scopes@.len(),
            final(self).state() == check_scoped(old(self).state(), old(self).src.spec_bytes(), old(self).floats@, stmts@).0,
            tstmts_view(r@) == check_scoped(old(self).state(), old(self).src.spec_bytes(), old(self).floats@, stmts@).1,
        decreases stmts@, 1nat,
    {
        let ghost st = self.state();
        let fresh: Vec<(String, Binding)> = Vec::new();
        proof {
            assert(scope_view(fresh) =~= Seq::<(Seq<char>, Binding)>::empty());
        }
        self.scopes.push(fresh);
        proof {
            assert(self.sv() =~= st.scopes.push(Seq::empty()));
        }
        proof {
            assert(self.state() == enter(st));
        }
        let out = self.block(stmts);
        let ghost inner = self.state();
        let _ = self.scopes.pop();
        proof {
            assert(self.sv() =~= inner.scopes.drop_last());
            assert(self.state() == leave(inner));
        }
        out
    }

    /// Check a run of statements, keeping going past any that fail so one
    /// bad statement does not suppress the rest of the file.
    fn block(&mut self, stmts: &Vec<Stmt>) -> (r: Vec<TStmt>)
        requires
            old(self).wf(),
        ensures
            final(self).wf(),
            final(self).src == old(self).src,
            final(self).floats == old(self).floats,
            final(self).scopes@.len() == old(self).scopes@.len(),
            final(self).state() == check_block(old(self).state(), old(self).src.spec_bytes(), old(self).floats@, stmts@).0,
            tstmts_view(r@) == check_block(old(self).state(), old(self).src.spec_bytes(), old(self).floats@, stmts@).1,
        decreases stmts@, 0nat,
    {
        proof {
            reveal(check_stmt);
            reveal(check_block);
            reveal(check_arms);
            reveal(check_arm);
        }
        let ghost st0 = self.state();
        let mut out: Vec<TStmt> = Vec::new();
        let mut i: usize = 0;
        proof {
            assert(stmts@.subrange(0, 0) =~= Seq::<Stmt>::empty());
        }
        while i < stmts.len()
            invariant
                i <= stmts@.len(),
                self.wf(),
                self.src == old(self).src,
                self.floats == old(self).floats,
                self.scopes@.len() == old(self).scopes@.len(),
                st0 == old(self).state(),
                check_block(st0, self.src.spec_bytes(), self.floats@, stmts@.subrange(0, i as int)).0
                    == self.state(),
                check_block(st0, self.src.spec_bytes(), self.floats@, stmts@.subrange(0, i as int)).1
                    == tstmts_view(out@),
            decreases stmts@.len() - i,
        {
            proof {
                reveal(check_stmt);
                reveal(check_block);
                reveal(check_arms);
                reveal(check_arm);
                assert(stmts@.subrange(0, i + 1).subrange(0, i as int) =~= stmts@.subrange(0, i as int));
                assert(stmts@.subrange(0, i + 1)[i as int] == stmts@[i as int]);
            }
            let ghost before = out@;
            match self.stmt(&stmts[i]) {
                Ok(t) => {
                    out.push(t);
                    proof {
                        assert(out@.subrange(0, out@.len() - 1) =~= before);
                    }
                },
                Err(d) => self.report(d),
            }
            i = i + 1;
        }
        proof {
            assert(stmts@.subrange(0, stmts@.len() as int) =~= stmts@);
        }
        out
    }
}

/// Once one item of a print list fails, the list does.
proof fn lemma_items_fail(scopes: Seq<ScopeView>, floats: Seq<FloatReading>, items: Seq<Expr>, i: int)
    requires
        0 <= i < items.len(),
        check_items(scopes, floats, items.take(i)) is Ok,
        check_expr(
            scopes,
            floats,
            items[i],
            match probe(scopes, items[i]) {
                Some(t) => t,
                None => RtType::Str,
            },
        ) is Err,
    ensures
        match check_expr(
            scopes,
            floats,
            items[i],
            match probe(scopes, items[i]) {
                Some(t) => t,
                None => RtType::Str,
            },
        ) {
            Err(d) => check_items(scopes, floats, items) == Err::<Seq<TExprView>, DiagView>(d),
            Ok(_) => true,
        },
    decreases items.len(),
{
    reveal(check_items);
    if i + 1 < items.len() {
        assert(items.drop_last().take(i) =~= items.take(i));
        assert(items.drop_last()[i] == items[i]);
        lemma_items_fail(scopes, floats, items.drop_last(), i);
    } else {
        assert(items.drop_last() =~= items.take(i));
    }
}

/// A whole checked program, ready for code generation.
#[derive(Debug)]
pub struct Checked {
    pub stmts: Vec<TStmt>,
    /// The debug name of every local slot, by slot.
    pub locals: Vec<String>,
    /// Every global: its name, its type, and whether it is exported.
    pub globals: Vec<(String, RtType, bool)>,
}

/// Where checking starts: one empty scope, nothing declared, no errors.
pub open spec fn initial_state() -> CheckState {
    CheckState {
        scopes: seq![Seq::<(Seq<char>, Binding)>::empty()],
        locals: Seq::empty(),
        globals: Seq::empty(),
        errors: Seq::empty(),
    }
}

/// Checking a whole program: every statement in order, in the module scope.
pub open spec fn program_check(src: Seq<u8>, floats: Seq<FloatReading>, stmts: Seq<Stmt>) -> (
    CheckState,
    Seq<TStmtView>,
) {
    check_block(initial_state(), src, floats, stmts)
}

/// What checking a program gives: the checked program when no error was
/// found, and otherwise every error, in the order found.
pub open spec fn accepted(
    src: Seq<u8>,
    floats: Seq<FloatReading>,
    stmts: Seq<Stmt>,
    r: Result<Checked, Vec<Diagnostic>>,
) -> bool {
    let (st, out) = program_check(src, floats, stmts);
    match r {
        Ok(c) => st.errors.len() == 0 && tstmts_view(c.stmts@) == out && c.locals@.map_values(|n: String| n@)
            == st.locals && c.globals@.map_values(|g: (String, RtType, bool)| (g.0@, g.1, g.2)) == st.globals,
        Err(ds) => st.errors.len() > 0 && ds@.map_values(|d: Diagnostic| d@) == st.errors,
    }
}

/// Type-check a parsed program. Float literals are read with the float
/// reader's answers in `floats`. Every error found is reported, in order;
/// the program is accepted only when there are none.
pub fn check_program(src: &str, program: &Program, floats: &[FloatReading]) -> (r: Result<Checked, Vec<Diagnostic>>)
    requires
        src.spec_bytes().len() < usize::MAX,
    ensures
        accepted(src.spec_bytes(), floats@, program.stmts@, r),
{
    let mut scopes: Vec<Vec<(String, Binding)>> = Vec::new();
    let module_scope: Vec<(String, Binding)> = Vec::new();
    proof {
        assert(scope_view(module_scope) =~= Seq::<(Seq<char>, Binding)>::empty());
    }
    scopes.push(module_scope);
    let mut cx = Checker {
        src,
        floats,
        scopes,
        locals: Vec::new(),
        globals: Vec::new(),
        errors: Vec::new(),
    };
    proof {
        assert(cx.sv() =~= initial_state().scopes);
        assert(cx.state().locals =~= Seq::<Seq<char>>::empty());
        assert(cx.state().globals =~= Seq::<(Seq<char>, RtType, bool)>::empty());
        assert(cx.state().errors =~= Seq::<DiagView>::empty());
        assert(cx.state() == initial_state());
    }
    let stmts = cx.block(&program.stmts);
    if cx.errors.len() == 0 {
        Ok(Checked { stmts, locals: cx.locals, globals: cx.globals })
    } else {
        Err(cx.errors)
    }
}

} // verus!
