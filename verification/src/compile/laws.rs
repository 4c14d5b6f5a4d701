//! What checking guarantees of every program it accepts.
use vstd::prelude::*;

use crate::bytecode::chunk::ConstView;
use crate::bytecode::value::{float_type, int_bounds, signed_int, unsigned_int, RtType};
use crate::compile::literal::{float_literal, int_literal, literal_reading, FloatReading};
use crate::compile::typeck::{
    check_expr, check_stmt, find, numeric, texpr_type, CheckState, ScopeView, TExprView,
};
use crate::syntax::ast::{comparison, ordering, Expr, Stmt};

verus! {

/// A constant that is a value of the type it is stored at: an integer of an
/// integer type within that type's range, and otherwise a constant of the
/// kind the type names.
pub open spec fn const_fits(c: ConstView, t: RtType) -> bool {
    match c {
        ConstView::Int(v) => signed_int(t) && int_bounds(t).unwrap().0 <= v <= int_bounds(t).unwrap().1,
        ConstView::Uint(v) => unsigned_int(t) && v <= int_bounds(t).unwrap().1,
        ConstView::F16(_) => t == RtType::F16,
        ConstView::F32(_) => t == RtType::F32,
        ConstView::F64(_) => t == RtType::F64,
        ConstView::Bool(_) => t == RtType::Bool,
        ConstView::Str(_) => t == RtType::Str,
        ConstView::Nil => t == RtType::Nil,
    }
}

/// A checked expression in which every operation is one its operands'
/// types support: constants fit their types, negation is of a signed or
/// floating value, arithmetic is on numbers of one type and keeps it, and a
/// comparison is of two values of one type, orders only numbers and text,
/// and gives `bool`.
pub open spec fn well_typed(e: TExprView) -> bool
    decreases e,
{
    match e {
        TExprView::Const(c, t) => const_fits(c, t),
        TExprView::Load(_, _) => true,
        TExprView::Neg(inner, t) => (signed_int(t) || float_type(t)) && texpr_type(*inner) == t && well_typed(
            *inner,
        ),
        TExprView::Bin { op, operand_ty, result, lhs, rhs } => {
            &&& texpr_type(*lhs) == operand_ty
            &&& texpr_type(*rhs) == operand_ty
            &&& well_typed(*lhs)
            &&& well_typed(*rhs)
            &&& if comparison(op) {
                result == RtType::Bool && (ordering(op) ==> numeric(operand_ty) || operand_ty == RtType::Str)
            } else {
                result == operand_ty && numeric(operand_ty)
            }
        },
    }
}

/// A literal that reads as a type gives a constant of that type.
pub proof fn lemma_literal_fits(text: Seq<char>, ty: RtType, floats: Seq<FloatReading>)
    ensures
        literal_reading(text, ty, floats) matches Ok(c) ==> const_fits(c, ty),
{
    if ty is F16 || ty is F32 || ty is F64 {
    } else if ty is Str || ty is Bool || ty is Nil {
    } else {
        if let Ok(c) = int_literal(text, ty) {
            assert(const_fits(c, ty));
        }
    }
}

/// No implicit conversion: an expression checked against a type, when it
/// checks, has exactly that type, and every operation in it is one its
/// operands' types support.
pub proof fn lemma_checked_is_well_typed(
    scopes: Seq<ScopeView>,
    floats: Seq<FloatReading>,
    e: Expr,
    expected: RtType,
)
    ensures
        check_expr(scopes, floats, e, expected) matches Ok(t) ==> texpr_type(t) == expected && well_typed(t),
    decreases e,
{
    reveal(check_expr);
    match e {
        Expr::Literal { text, .. } => {
            lemma_literal_fits(text@, expected, floats);
        },
        Expr::TypedLiteral { text, .. } => {
            lemma_literal_fits(text@, expected, floats);
        },
        Expr::Group { inner, .. } => {
            lemma_checked_is_well_typed(scopes, floats, *inner, expected);
        },
        Expr::Unary { operand, .. } => {
            lemma_checked_is_well_typed(scopes, floats, *operand, expected);
        },
        Expr::Binary { op, lhs, rhs, .. } => {
            if comparison(op) {
                let side = match crate::compile::typeck::probe(scopes, *lhs) {
                    Some(t) => Some(t),
                    None => crate::compile::typeck::probe(scopes, *rhs),
                };
                if let Some(t) = side {
                    lemma_checked_is_well_typed(scopes, floats, *lhs, t);
                    lemma_checked_is_well_typed(scopes, floats, *rhs, t);
                }
            } else {
                lemma_checked_is_well_typed(scopes, floats, *lhs, expected);
                lemma_checked_is_well_typed(scopes, floats, *rhs, expected);
            }
        },
        _ => {},
    }
}

/// A literal has no type of its own: a comparison of two bare literals has
/// nothing to read them as, and is refused.
pub proof fn lemma_bare_comparison_refused(
    scopes: Seq<ScopeView>,
    floats: Seq<FloatReading>,
    e: Expr,
    expected: RtType,
)
    requires
        e matches Expr::Binary { op, lhs, rhs, .. } && comparison(op) && *lhs is Literal && *rhs is Literal,
    ensures
        check_expr(scopes, floats, e, expected) is Err,
{
    reveal(check_expr);
}

/// A name is declared once: a declaration that checks names something not
/// yet declared in any open scope.
pub proof fn lemma_declared_once(st: CheckState, src: Seq<u8>, floats: Seq<FloatReading>, s: Stmt)
    requires
        s is Var,
    ensures
        s matches Stmt::Var { name, .. } ==> (check_stmt(st, src, floats, s).1 is Ok ==> find(
            st.scopes,
            name.text@,
        ) is None),
{
    reveal(crate::compile::typeck::check_stmt);
    reveal(crate::compile::typeck::check_block);
    reveal(crate::compile::typeck::check_arms);
    reveal(crate::compile::typeck::check_arm);
}

} // verus!
